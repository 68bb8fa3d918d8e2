//! The three record types: Content Identity Records, Transform Definition
//! Records and signed attestations, each a CBOR map in canonical form.
use vstd::prelude::*;
use crate::address::{
    CiHash, TdHash, AttHash, BlobRef, ci_prefix, td_prefix, att_prefix, blob_prefix, prefixed_text,
};
use crate::canonical::{self, CanonError, canon, canonical_bytes, has_float};
use crate::cbor::{Value, Data, dec, encodable, data_pairs};
use crate::fields::{
    text_keys, lemma_get_canon, lemma_field_at, lemma_field_none, lemma_field_push, lemma_opt_push,
    get, opt_push, put, put_opt, hash_at, opt_hash_at, opt_text_at, text_of, get_field, text_field,
    hash_field, opt_hash_field, opt_text_field, hash_text, text,
};
use crate::hex::{hex_of, parse_hex};
use crate::identity::{
    self, Dgid, Identity, Signature, parse_dgid, dgid_prefix, ed25519_public, ed25519_signature,
    ed25519_accepts,
};
use crate::store::{BlobHash, blake3_digest};
use crate::text::{chars_of, same_chars, owned, trimmed};

verus! {

pub const CIR_KIND: &'static str = "cir";

pub const TDR_KIND: &'static str = "tdr";

pub const ATTESTATION_KIND: &'static str = "attestation";

/// A record as a plain map: its record type, its kind and its body.
pub struct RecordV {
    pub record: Seq<char>,
    pub kind: Seq<char>,
    pub body: Data,
}

/// The map a record is written as.
pub open spec fn record_data(r: RecordV) -> Data {
    Data::Table(
        seq![
            (Data::Text("record"@), Data::Text(r.record)),
            (Data::Text("kind"@), Data::Text(r.kind)),
            (Data::Text("body"@), r.body),
        ],
    )
}

/// The record a map reads as: text fields `record` and `kind` and any `body`.
pub open spec fn decode_record(d: Data) -> Option<RecordV> {
    let record = text_of(get(d, "record"@));
    let kind = text_of(get(d, "kind"@));
    let body = get(d, "body"@);
    if record is Some && kind is Some && body is Some {
        Some(RecordV { record: record->0, kind: kind->0, body: body->0 })
    } else {
        None
    }
}

/// The record of type `expected` that `bytes` encode.
pub open spec fn read_record(bytes: Seq<u8>, expected: Seq<char>) -> Option<RecordV> {
    match dec(bytes) {
        Some((d, _)) => match decode_record(d) {
            Some(r) => if r.record == expected {
                Some(r)
            } else {
                None
            },
            None => None,
        },
        None => None,
    }
}

/// What canonicalising a body gives: its canonical form, or the refusal.
pub open spec fn canon_ok(d: Data) -> bool {
    !has_float(d) && encodable(d)
}

/// Whether a text is short enough to encode: its UTF-8 bytes are counted
/// in 64 bits.
pub open spec fn text_fits(t: Seq<char>) -> bool {
    vstd::utf8::encode_utf8(t).len() < crate::cbor::u64_lim()
}

/// Whether an entry of a map encodes and holds no float.
pub open spec fn entry_ok(p: (Data, Data)) -> bool {
    crate::cbor::encodable_pair(p) && crate::canonical::float_free_pair(p)
}

/// The text of `s` fits: its bytes are in memory.
pub fn text_fits_str(s: &str)
    ensures
        text_fits(s@),
{
    let b = s.as_bytes();
    let n = b.len();
    assert(n <= usize::MAX);
}

pub proof fn lemma_ascii_fits(t: Seq<char>)
    requires
        vstd::utf8::is_ascii_chars(t),
        t.len() < 1000,
    ensures
        text_fits(t),
{
    vstd::utf8::is_ascii_chars_encode_utf8(t);
}

pub proof fn lemma_hex_text_fits(prefix: Seq<char>, h: Seq<u8>)
    requires
        vstd::utf8::is_ascii_chars(prefix),
        prefix.len() < 10,
        h.len() <= 64,
    ensures
        text_fits(prefix + hex_of(h)),
{
    let t = prefix + hex_of(h);
    crate::address::lemma_hex_chars(h);
    assert forall|i: int| 0 <= i < t.len() implies '\0' <= #[trigger] t[i] <= '\u{7f}' by {
        if i >= prefix.len() {
            assert(t[i] == hex_of(h)[i - prefix.len()]);
            assert(crate::hex::is_hex_digit(hex_of(h)[i - prefix.len()]));
        }
    }
    lemma_ascii_fits(t);
}

/// A map whose entries all encode without floats encodes without floats,
/// when it has fewer entries than 64 bits count; and the converse.
pub proof fn lemma_table_ok(e: Seq<(Data, Data)>)
    ensures
        canon_ok(Data::Table(e)) <==> e.len() < crate::cbor::u64_lim() && forall|i: int|
            0 <= i < e.len() ==> entry_ok(#[trigger] e[i]),
{
    crate::cbor::lemma_encodable_pairs(e);
    crate::canonical::lemma_has_float_pairs(e);
    if forall|i: int| 0 <= i < e.len() ==> entry_ok(#[trigger] e[i]) {
        assert forall|i: int| 0 <= i < e.len() implies crate::cbor::encodable_pair(#[trigger] e[i]) by {
            assert(entry_ok(e[i]));
        }
        assert forall|i: int| 0 <= i < e.len() implies crate::canonical::float_free_pair(#[trigger] e[i]) by {
            assert(entry_ok(e[i]));
        }
    }
    if canon_ok(Data::Table(e)) {
        assert forall|i: int| 0 <= i < e.len() implies entry_ok(#[trigger] e[i]) by {
            assert(crate::cbor::encodable_pair(e[i]));
            assert(crate::canonical::float_free_pair(e[i]));
        }
    }
}

/// Pushing an entry whose key fits and whose value encodes without floats
/// keeps every entry so.
pub proof fn lemma_opt_push_ok(e: Seq<(Data, Data)>, name: Seq<char>, d: Option<Data>)
    requires
        forall|i: int| 0 <= i < e.len() ==> entry_ok(#[trigger] e[i]),
        text_fits(name),
        d matches Some(x) ==> canon_ok(x),
    ensures
        forall|i: int| 0 <= i < opt_push(e, name, d).len() ==> entry_ok(#[trigger] opt_push(e, name, d)[i]),
{
    assert forall|i: int| 0 <= i < opt_push(e, name, d).len() implies entry_ok(#[trigger] opt_push(e, name, d)[i]) by {
        if i < e.len() {
            assert(opt_push(e, name, d)[i] == e[i]);
        }
    }
}

/// A text behind an ASCII prefix of a few characters fits.
pub proof fn lemma_hash_text_ok(prefix: Seq<char>, o: Option<Seq<u8>>)
    requires
        vstd::utf8::is_ascii_chars(prefix),
        prefix.len() < 10,
        o matches Some(h) ==> h.len() == 32,
    ensures
        opt_hash_data(prefix, o) matches Some(x) ==> canon_ok(x),
{
    if let Some(h) = o {
        lemma_hex_text_fits(prefix, h);
    }
}

/// A claim's map encodes without floats when its hashes are hashes and its
/// expiry text fits.
pub proof fn lemma_claim_ok(c: ClaimV)
    requires
        c.ci.len() == 32,
        c.td matches Some(h) ==> h.len() == 32,
        c.blob matches Some(h) ==> h.len() == 32,
        c.other matches Some(h) ==> h.len() == 32,
        c.expires matches Some(t) ==> text_fits(t),
    ensures
        canon_ok(claim_data(c)),
{
    reveal_strlit("kind");
    reveal_strlit("ci");
    reveal_strlit("td");
    reveal_strlit("blob");
    reveal_strlit("other");
    reveal_strlit("expires");
    reveal_strlit("content");
    reveal_strlit("same-as");
    reveal_strlit("superseded-by");
    reveal_strlit("previous-version");
    lemma_ascii_fits("kind"@);
    lemma_ascii_fits("ci"@);
    lemma_ascii_fits("td"@);
    lemma_ascii_fits("blob"@);
    lemma_ascii_fits("other"@);
    lemma_ascii_fits("expires"@);
    lemma_ascii_fits(kind_label(c.kind));
    lemma_hex_text_fits(ci_prefix(), c.ci);
    let e0 = seq![
        (Data::Text("kind"@), Data::Text(kind_label(c.kind))),
        (Data::Text("ci"@), Data::Text(prefixed_text(ci_prefix(), c.ci))),
    ];
    assert forall|i: int| 0 <= i < e0.len() implies entry_ok(#[trigger] e0[i]) by {}
    lemma_hash_text_ok(td_prefix(), c.td);
    lemma_hash_text_ok(blob_prefix(), c.blob);
    lemma_hash_text_ok(ci_prefix(), c.other);
    let e1 = opt_push(e0, "td"@, opt_hash_data(td_prefix(), c.td));
    lemma_opt_push_ok(e0, "td"@, opt_hash_data(td_prefix(), c.td));
    let e2 = opt_push(e1, "blob"@, opt_hash_data(blob_prefix(), c.blob));
    lemma_opt_push_ok(e1, "blob"@, opt_hash_data(blob_prefix(), c.blob));
    let e3 = opt_push(e2, "other"@, opt_hash_data(ci_prefix(), c.other));
    lemma_opt_push_ok(e2, "other"@, opt_hash_data(ci_prefix(), c.other));
    lemma_opt_push_ok(e3, "expires"@, opt_text_data(c.expires));
    lemma_table_ok(claim_data(c)->Table_0);
}

/// The canonical form of an item that encodes without floats does too.
pub proof fn lemma_canon_ok(d: Data)
    requires
        canon_ok(d),
    ensures
        canon_ok(canon(d)),
{
    canonical::lemma_canon_encodable(d);
    canonical::lemma_canon_float_free(d);
}

/// A record encodes without floats when its type and kind texts fit and its
/// body encodes without floats.
pub proof fn lemma_record_ok(r: RecordV)
    requires
        text_fits(r.record),
        text_fits(r.kind),
        canon_ok(r.body),
    ensures
        canon_ok(record_data(r)),
{
    reveal_strlit("record");
    reveal_strlit("kind");
    reveal_strlit("body");
    lemma_ascii_fits("record"@);
    lemma_ascii_fits("kind"@);
    lemma_ascii_fits("body"@);
    let e = record_data(r)->Table_0;
    assert forall|i: int| 0 <= i < e.len() implies entry_ok(#[trigger] e[i]) by {}
    lemma_table_ok(e);
}

/// A Content Identity Record: the identity of a thing, minted from its body.
#[derive(Debug, PartialEq)]
pub struct Cir {
    pub record: String,
    pub kind: String,
    pub body: Value,
}

/// A Transform Definition Record: how an artifact is made.
#[derive(Debug, PartialEq)]
pub struct Tdr {
    pub record: String,
    pub kind: String,
    pub body: Value,
}

impl View for Cir {
    type V = RecordV;

    open spec fn view(&self) -> RecordV {
        RecordV { record: self.record@, kind: self.kind@, body: self.body@ }
    }
}

impl View for Tdr {
    type V = RecordV;

    open spec fn view(&self) -> RecordV {
        RecordV { record: self.record@, kind: self.kind@, body: self.body@ }
    }
}

/// The map `{record, kind, body}`.
fn record_value(record: &str, kind: &str, body: &Value) -> (v: Value)
    ensures
        v@ == record_data(RecordV { record: record@, kind: kind@, body: body@ }),
{
    let mut entries: Vec<(Value, Value)> = Vec::new();
    proof {
        assert(data_pairs(entries@) =~= Seq::<(Data, Data)>::empty());
    }
    put(&mut entries, "record", text(record));
    put(&mut entries, "kind", text(kind));
    put(&mut entries, "body", canonical::copy_value(body));
    let ghost d = record_data(RecordV { record: record@, kind: kind@, body: body@ });
    assert(data_pairs(entries@) =~= d->Table_0);
    Value::Table(entries)
}

/// The fields of a record map.
fn record_fields(v: &Value) -> (r: Option<(String, String, Value)>)
    ensures
        match r {
            Some((record, kind, body)) => decode_record(v@) == Some(
                RecordV { record: record@, kind: kind@, body: body@ },
            ),
            None => decode_record(v@) is None,
        },
{
    let record = text_field(v, "record");
    let kind = text_field(v, "kind");
    let body = get_field(v, "body");
    match (record, kind, body) {
        (Some(record), Some(kind), Some(body)) => Some((record, kind, canonical::copy_value(body))),
        _ => None,
    }
}

/// Whether `s` is the text `t`.
pub fn same_text(s: &str, t: &str) -> (r: bool)
    ensures
        r == (s@ == t@),
{
    let a = chars_of(s);
    let b = chars_of(t);
    same_chars(&a, &b)
}

/// Reads a record of type `expected` from `bytes`.
fn read_record_value(bytes: &[u8], expected: &str) -> (r: Result<(String, String, Value), CanonError>)
    ensures
        match r {
            Ok((record, kind, body)) => read_record(bytes@, expected@) == Some(
                RecordV { record: record@, kind: kind@, body: body@ },
            ),
            Err(e) => read_record(bytes@, expected@) is None && e is Decode,
        },
{
    let v = canonical::from_slice(bytes)?;
    match record_fields(&v) {
        None => Err(CanonError::Decode("a record is a map with record, kind and body".to_string())),
        Some((record, kind, body)) => {
            if same_text(record.as_str(), expected) {
                Ok((record, kind, body))
            } else {
                Err(CanonError::Decode("the record is of another type".to_string()))
            }
        },
    }
}

impl Cir {
    /// A CIR of `kind` whose body is the canonical form of `body`.
    pub fn new(kind: &str, body: &Value) -> (r: Result<Self, CanonError>)
        ensures
            match r {
                Ok(c) => canon_ok(body@) && c@ == RecordV {
                    record: CIR_KIND@,
                    kind: kind@,
                    body: canon(body@),
                },
                Err(CanonError::Float) => has_float(body@),
                Err(CanonError::Encode(_)) => !has_float(body@) && !encodable(body@),
                Err(CanonError::Decode(_)) => false,
            },
    {
        let body = canonical::canonicalize(body)?;
        Ok(Cir { record: owned(CIR_KIND), kind: owned(kind), body })
    }

    /// The body in canonical form.
    pub fn body(&self) -> (r: Result<Value, CanonError>)
        ensures
            match r {
                Ok(b) => canon_ok(self.body@) && b@ == canon(self.body@),
                Err(CanonError::Float) => has_float(self.body@),
                Err(CanonError::Encode(_)) => !has_float(self.body@) && !encodable(self.body@),
                Err(CanonError::Decode(_)) => false,
            },
    {
        canonical::canonicalize(&self.body)
    }

    /// The map this record is written as.
    pub fn to_value(&self) -> (v: Value)
        ensures
            v@ == record_data(self@),
    {
        record_value(self.record.as_str(), self.kind.as_str(), &self.body)
    }

    /// The canonical bytes of this record.
    pub fn encode(&self) -> (r: Result<Vec<u8>, CanonError>)
        ensures
            match r {
                Ok(b) => canon_ok(record_data(self@)) && b@ == canonical_bytes(record_data(self@)),
                Err(CanonError::Float) => has_float(record_data(self@)),
                Err(CanonError::Encode(_)) => canon_ok(record_data(self@)) == false && !has_float(
                    record_data(self@),
                ),
                Err(CanonError::Decode(_)) => false,
            },
    {
        canonical::to_vec(&self.to_value())
    }

    /// The CIR that `bytes` encode; a record of another type is refused.
    pub fn decode(bytes: &[u8]) -> (r: Result<Self, CanonError>)
        ensures
            match r {
                Ok(c) => read_record(bytes@, CIR_KIND@) == Some(c@),
                Err(e) => read_record(bytes@, CIR_KIND@) is None && e is Decode,
            },
    {
        let (record, kind, body) = read_record_value(bytes, CIR_KIND)?;
        Ok(Cir { record, kind, body })
    }

    /// The `ci:` address: the hash of the canonical bytes.
    pub fn address(&self) -> (r: Result<CiHash, CanonError>)
        ensures
            match r {
                Ok(a) => canon_ok(record_data(self@)) && a.0@ == blake3_digest(
                    canonical_bytes(record_data(self@)),
                ),
                Err(_) => !canon_ok(record_data(self@)),
            },
    {
        let h = canonical::hash(&self.to_value())?;
        Ok(CiHash::from_hash(h))
    }
}

impl Tdr {
    /// A TDR of `kind` whose body is the canonical form of `body`.
    pub fn new(kind: &str, body: &Value) -> (r: Result<Self, CanonError>)
        ensures
            match r {
                Ok(c) => canon_ok(body@) && c@ == RecordV {
                    record: TDR_KIND@,
                    kind: kind@,
                    body: canon(body@),
                },
                Err(CanonError::Float) => has_float(body@),
                Err(CanonError::Encode(_)) => !has_float(body@) && !encodable(body@),
                Err(CanonError::Decode(_)) => false,
            },
    {
        let body = canonical::canonicalize(body)?;
        Ok(Tdr { record: owned(TDR_KIND), kind: owned(kind), body })
    }

    /// The body in canonical form.
    pub fn body(&self) -> (r: Result<Value, CanonError>)
        ensures
            match r {
                Ok(b) => canon_ok(self.body@) && b@ == canon(self.body@),
                Err(CanonError::Float) => has_float(self.body@),
                Err(CanonError::Encode(_)) => !has_float(self.body@) && !encodable(self.body@),
                Err(CanonError::Decode(_)) => false,
            },
    {
        canonical::canonicalize(&self.body)
    }

    /// The map this record is written as.
    pub fn to_value(&self) -> (v: Value)
        ensures
            v@ == record_data(self@),
    {
        record_value(self.record.as_str(), self.kind.as_str(), &self.body)
    }

    /// The canonical bytes of this record.
    pub fn encode(&self) -> (r: Result<Vec<u8>, CanonError>)
        ensures
            match r {
                Ok(b) => canon_ok(record_data(self@)) && b@ == canonical_bytes(record_data(self@)),
                Err(CanonError::Float) => has_float(record_data(self@)),
                Err(CanonError::Encode(_)) => canon_ok(record_data(self@)) == false && !has_float(
                    record_data(self@),
                ),
                Err(CanonError::Decode(_)) => false,
            },
    {
        canonical::to_vec(&self.to_value())
    }

    /// The TDR that `bytes` encode; a record of another type is refused.
    pub fn decode(bytes: &[u8]) -> (r: Result<Self, CanonError>)
        ensures
            match r {
                Ok(c) => read_record(bytes@, TDR_KIND@) == Some(c@),
                Err(e) => read_record(bytes@, TDR_KIND@) is None && e is Decode,
            },
    {
        let (record, kind, body) = read_record_value(bytes, TDR_KIND)?;
        Ok(Tdr { record, kind, body })
    }

    /// The `td:` address: the hash of the canonical bytes.
    pub fn address(&self) -> (r: Result<TdHash, CanonError>)
        ensures
            match r {
                Ok(a) => canon_ok(record_data(self@)) && a.0@ == blake3_digest(
                    canonical_bytes(record_data(self@)),
                ),
                Err(_) => !canon_ok(record_data(self@)),
            },
    {
        let h = canonical::hash(&self.to_value())?;
        Ok(TdHash::from_hash(h))
    }
}

} // verus!

verus! {

/// What an attestation claims.
#[derive(Debug, Clone, Copy, PartialEq, Eq, Structural)]
pub enum ClaimKind {
    Content,
    SameAs,
    SupersededBy,
    PreviousVersion,
}

pub open spec fn kind_label(k: ClaimKind) -> Seq<char> {
    match k {
        ClaimKind::Content => "content"@,
        ClaimKind::SameAs => "same-as"@,
        ClaimKind::SupersededBy => "superseded-by"@,
        ClaimKind::PreviousVersion => "previous-version"@,
    }
}

/// The claim kind spelled exactly by `t`.
pub open spec fn kind_named(t: Seq<char>) -> Option<ClaimKind> {
    if t == "content"@ {
        Some(ClaimKind::Content)
    } else if t == "same-as"@ {
        Some(ClaimKind::SameAs)
    } else if t == "superseded-by"@ {
        Some(ClaimKind::SupersededBy)
    } else if t == "previous-version"@ {
        Some(ClaimKind::PreviousVersion)
    } else {
        None
    }
}

impl ClaimKind {
    /// The kebab-case name the kind is written with.
    pub fn label(&self) -> (s: &'static str)
        ensures
            s@ == kind_label(*self),
    {
        match self {
            ClaimKind::Content => "content",
            ClaimKind::SameAs => "same-as",
            ClaimKind::SupersededBy => "superseded-by",
            ClaimKind::PreviousVersion => "previous-version",
        }
    }

    pub fn parse(t: &str) -> (r: Option<Self>)
        ensures
            r == kind_named(t@),
    {
        if same_text(t, "content") {
            Some(ClaimKind::Content)
        } else if same_text(t, "same-as") {
            Some(ClaimKind::SameAs)
        } else if same_text(t, "superseded-by") {
            Some(ClaimKind::SupersededBy)
        } else if same_text(t, "previous-version") {
            Some(ClaimKind::PreviousVersion)
        } else {
            None
        }
    }
}

/// A claim about a content identity: what made an artifact of it, or how it
/// relates to another identity.
#[derive(Debug, Clone, PartialEq)]
pub struct Claim {
    pub kind: ClaimKind,
    pub ci: CiHash,
    pub td: Option<TdHash>,
    pub blob: Option<BlobRef>,
    pub other: Option<CiHash>,
    pub expires: Option<String>,
}

pub struct ClaimV {
    pub kind: ClaimKind,
    pub ci: Seq<u8>,
    pub td: Option<Seq<u8>>,
    pub blob: Option<Seq<u8>>,
    pub other: Option<Seq<u8>>,
    pub expires: Option<Seq<char>>,
}

pub open spec fn ci_opt(o: Option<CiHash>) -> Option<Seq<u8>> {
    match o {
        Some(h) => Some(h.0@),
        None => None,
    }
}

pub open spec fn td_opt(o: Option<TdHash>) -> Option<Seq<u8>> {
    match o {
        Some(h) => Some(h.0@),
        None => None,
    }
}

pub open spec fn blob_opt(o: Option<BlobRef>) -> Option<Seq<u8>> {
    match o {
        Some(h) => Some(h.0@),
        None => None,
    }
}

pub open spec fn text_opt(o: Option<String>) -> Option<Seq<char>> {
    match o {
        Some(t) => Some(t@),
        None => None,
    }
}

impl View for Claim {
    type V = ClaimV;

    open spec fn view(&self) -> ClaimV {
        ClaimV {
            kind: self.kind,
            ci: self.ci.0@,
            td: td_opt(self.td),
            blob: blob_opt(self.blob),
            other: ci_opt(self.other),
            expires: text_opt(self.expires),
        }
    }
}

/// An optional hash written as text behind `prefix`.
pub open spec fn opt_hash_data(prefix: Seq<char>, o: Option<Seq<u8>>) -> Option<Data> {
    match o {
        Some(h) => Some(Data::Text(prefixed_text(prefix, h))),
        None => None,
    }
}

pub open spec fn opt_text_data(o: Option<Seq<char>>) -> Option<Data> {
    match o {
        Some(t) => Some(Data::Text(t)),
        None => None,
    }
}

/// The map a claim is written as; absent fields are left out.
pub open spec fn claim_data(c: ClaimV) -> Data {
    Data::Table(
        opt_push(
            opt_push(
                opt_push(
                    opt_push(
                        seq![
                            (Data::Text("kind"@), Data::Text(kind_label(c.kind))),
                            (Data::Text("ci"@), Data::Text(prefixed_text(ci_prefix(), c.ci))),
                        ],
                        "td"@,
                        opt_hash_data(td_prefix(), c.td),
                    ),
                    "blob"@,
                    opt_hash_data(blob_prefix(), c.blob),
                ),
                "other"@,
                opt_hash_data(ci_prefix(), c.other),
            ),
            "expires"@,
            opt_text_data(c.expires),
        ),
    )
}

/// The claim a map reads as.
pub open spec fn decode_claim(d: Data) -> Option<ClaimV> {
    let kind = match get(d, "kind"@) {
        Some(Data::Text(t)) => kind_named(t),
        _ => None,
    };
    let ci = hash_at(get(d, "ci"@), ci_prefix());
    let td = opt_hash_at(get(d, "td"@), td_prefix());
    let blob = opt_hash_at(get(d, "blob"@), blob_prefix());
    let other = opt_hash_at(get(d, "other"@), ci_prefix());
    let expires = opt_text_at(get(d, "expires"@));
    if kind is Some && ci is Some && td is Some && blob is Some && other is Some && expires is Some {
        Some(
            ClaimV {
                kind: kind->0,
                ci: ci->0,
                td: td->0,
                blob: blob->0,
                other: other->0,
                expires: expires->0,
            },
        )
    } else {
        None
    }
}

/// The signing scope of a claim: the hash of its canonical bytes.
pub open spec fn claim_scope(c: ClaimV) -> Seq<u8> {
    blake3_digest(canonical_bytes(claim_data(c)))
}

impl Claim {
    /// A content claim: `td` applied to `ci` gave `blob`.
    pub fn content(ci: CiHash, td: TdHash, blob: BlobRef) -> (c: Self)
        ensures
            c@ == (ClaimV {
                kind: ClaimKind::Content,
                ci: ci.0@,
                td: Some(td.0@),
                blob: Some(blob.0@),
                other: None,
                expires: None,
            }),
    {
        Claim { kind: ClaimKind::Content, ci, td: Some(td), blob: Some(blob), other: None, expires: None }
    }

    /// A relation claim from `from` to `to`.
    pub fn relation(kind: ClaimKind, from: CiHash, to: CiHash) -> (c: Self)
        ensures
            c@ == (ClaimV {
                kind,
                ci: from.0@,
                td: None,
                blob: None,
                other: Some(to.0@),
                expires: None,
            }),
    {
        Claim { kind, ci: from, td: None, blob: None, other: Some(to), expires: None }
    }

    /// The map this claim is written as.
    pub fn to_value(&self) -> (v: Value)
        ensures
            v@ == claim_data(self@),
    {
        let mut e: Vec<(Value, Value)> = Vec::new();
        proof {
            assert(data_pairs(e@) =~= Seq::<(Data, Data)>::empty());
        }
        put(&mut e, "kind", text(self.kind.label()));
        put(&mut e, "ci", hash_text(&CiHash::prefix(), &self.ci.0));
        let td = match self.td {
            Some(t) => Some(hash_text(&TdHash::prefix(), &t.0)),
            None => None,
        };
        put_opt(&mut e, "td", td);
        let blob = match self.blob {
            Some(b) => Some(hash_text(&BlobRef::prefix(), &b.0)),
            None => None,
        };
        put_opt(&mut e, "blob", blob);
        let other = match self.other {
            Some(o) => Some(hash_text(&CiHash::prefix(), &o.0)),
            None => None,
        };
        put_opt(&mut e, "other", other);
        let expires = match &self.expires {
            Some(x) => Some(Value::Text(x.clone())),
            None => None,
        };
        put_opt(&mut e, "expires", expires);
        let ghost d = claim_data(self@);
        assert(data_pairs(e@) =~= d->Table_0);
        Value::Table(e)
    }

    /// The claim that the map `v` holds.
    pub fn from_value(v: &Value) -> (r: Option<Self>)
        ensures
            match r {
                Some(c) => decode_claim(v@) == Some(c@),
                None => decode_claim(v@) is None,
            },
    {
        let kind = match get_field(v, "kind") {
            Some(Value::Text(t)) => ClaimKind::parse(t.as_str()),
            _ => None,
        };
        let ci = hash_field(v, "ci", &CiHash::prefix());
        let td = opt_hash_field(v, "td", &TdHash::prefix());
        let blob = opt_hash_field(v, "blob", &BlobRef::prefix());
        let other = opt_hash_field(v, "other", &CiHash::prefix());
        let expires = opt_text_field(v, "expires");
        match (kind, ci, td, blob, other, expires) {
            (Some(kind), Some(ci), Some(td), Some(blob), Some(other), Some(expires)) => {
                let td = match td {
                    Some(h) => Some(TdHash::from_hash(h)),
                    None => None,
                };
                let blob = match blob {
                    Some(h) => Some(BlobRef::from_hash(h)),
                    None => None,
                };
                let other = match other {
                    Some(h) => Some(CiHash::from_hash(h)),
                    None => None,
                };
                Some(Claim { kind, ci: CiHash::from_hash(ci), td, blob, other, expires })
            },
            _ => None,
        }
    }

    /// The bytes an attestation of this claim signs: the hash of its canonical encoding.
    pub fn scope(&self) -> (r: Result<Vec<u8>, CanonError>)
        ensures
            match r {
                Ok(b) => canon_ok(claim_data(self@)) && b@ == claim_scope(self@),
                Err(_) => !canon_ok(claim_data(self@)),
            },
            r is Ok,
    {
        match &self.expires {
            Some(e) => text_fits_str(e.as_str()),
            None => {},
        }
        proof {
            crate::store::lemma_hash_len(self.ci.0);
            if let Some(h) = self.td {
                crate::store::lemma_hash_len(h.0);
            }
            if let Some(h) = self.blob {
                crate::store::lemma_hash_len(h.0);
            }
            if let Some(h) = self.other {
                crate::store::lemma_hash_len(h.0);
            }
            lemma_claim_ok(self@);
        }
        let h = canonical::hash(&self.to_value())?;
        Ok(h.to_vec())
    }
}

/// A signature by a group over a claim's scope.
#[derive(Debug, Clone, Copy, PartialEq)]
pub struct Proof {
    pub dgid: Dgid,
    pub sig: Signature,
}

pub struct ProofV {
    pub dgid: Seq<u8>,
    pub sig: Seq<u8>,
}

impl View for Proof {
    type V = ProofV;

    open spec fn view(&self) -> ProofV {
        ProofV { dgid: self.dgid@, sig: self.sig@ }
    }
}

pub open spec fn proof_data(p: ProofV) -> Data {
    Data::Table(
        seq![
            (Data::Text("dgid"@), Data::Text(dgid_prefix() + hex_of(p.dgid))),
            (Data::Text("sig"@), Data::Text(hex_of(p.sig))),
        ],
    )
}

pub open spec fn decode_proof(d: Data) -> Option<ProofV> {
    let dgid = match get(d, "dgid"@) {
        Some(Data::Text(t)) => parse_dgid(t),
        _ => None,
    };
    let sig = match get(d, "sig"@) {
        Some(Data::Text(t)) => parse_hex(trimmed(t), 64),
        _ => None,
    };
    if dgid is Some && sig is Some {
        Some(ProofV { dgid: dgid->0, sig: sig->0 })
    } else {
        None
    }
}

impl Proof {
    pub fn to_value(&self) -> (v: Value)
        ensures
            v@ == proof_data(self@),
    {
        let mut e: Vec<(Value, Value)> = Vec::new();
        proof {
            assert(data_pairs(e@) =~= Seq::<(Data, Data)>::empty());
        }
        put(&mut e, "dgid", Value::Text(self.dgid.to_string()));
        put(&mut e, "sig", Value::Text(self.sig.to_string()));
        let ghost d = proof_data(self@);
        assert(data_pairs(e@) =~= d->Table_0);
        Value::Table(e)
    }

    pub fn from_value(v: &Value) -> (r: Option<Self>)
        ensures
            match r {
                Some(p) => decode_proof(v@) == Some(p@),
                None => decode_proof(v@) is None,
            },
    {
        let dgid = match get_field(v, "dgid") {
            Some(Value::Text(t)) => Dgid::parse(t.as_str()),
            _ => None,
        };
        let sig = match get_field(v, "sig") {
            Some(Value::Text(t)) => Signature::parse(t.as_str()),
            _ => None,
        };
        match (dgid, sig) {
            (Some(dgid), Some(sig)) => Some(Proof { dgid, sig }),
            _ => None,
        }
    }
}

/// A claim, signed or not.
#[derive(Debug, Clone, PartialEq)]
pub struct Attestation {
    pub record: String,
    pub claim: Claim,
    pub proof: Option<Proof>,
}

pub struct AttestationV {
    pub record: Seq<char>,
    pub claim: ClaimV,
    pub proof: Option<ProofV>,
}

pub open spec fn proof_opt(o: Option<Proof>) -> Option<ProofV> {
    match o {
        Some(p) => Some(p@),
        None => None,
    }
}

impl View for Attestation {
    type V = AttestationV;

    open spec fn view(&self) -> AttestationV {
        AttestationV { record: self.record@, claim: self.claim@, proof: proof_opt(self.proof) }
    }
}

pub open spec fn opt_proof_data(o: Option<ProofV>) -> Option<Data> {
    match o {
        Some(p) => Some(proof_data(p)),
        None => None,
    }
}

pub open spec fn attestation_data(a: AttestationV) -> Data {
    Data::Table(
        opt_push(
            seq![
                (Data::Text("record"@), Data::Text(a.record)),
                (Data::Text("claim"@), claim_data(a.claim)),
            ],
            "proof"@,
            opt_proof_data(a.proof),
        ),
    )
}

pub open spec fn decode_attestation(d: Data) -> Option<AttestationV> {
    let record = text_of(get(d, "record"@));
    let claim = match get(d, "claim"@) {
        Some(c) => decode_claim(c),
        None => None,
    };
    let signed = match get(d, "proof"@) {
        None => Some(None),
        Some(Data::Null) => Some(None),
        Some(p) => match decode_proof(p) {
            Some(q) => Some(Some(q)),
            None => None,
        },
    };
    if record is Some && claim is Some && signed is Some {
        Some(AttestationV { record: record->0, claim: claim->0, proof: signed->0 })
    } else {
        None
    }
}

/// The attestation that `bytes` encode, if its record type is `attestation`.
pub open spec fn read_attestation(bytes: Seq<u8>) -> Option<AttestationV> {
    match dec(bytes) {
        Some((d, _)) => match decode_attestation(d) {
            Some(a) => if a.record == ATTESTATION_KIND@ {
                Some(a)
            } else {
                None
            },
            None => None,
        },
        None => None,
    }
}

/// The group whose valid signature an attestation carries.
pub open spec fn signer_of(a: AttestationV) -> Option<Seq<u8>> {
    match a.proof {
        Some(p) => if canon_ok(claim_data(a.claim)) && ed25519_accepts(
            p.dgid,
            claim_scope(a.claim),
            p.sig,
        ) {
            Some(p.dgid)
        } else {
            None
        },
        None => None,
    }
}

/// The attestation of `c` that carries no signature.
pub open spec fn unsigned_attestation(c: ClaimV) -> AttestationV {
    AttestationV { record: ATTESTATION_KIND@, claim: c, proof: None }
}

/// The attestation of `c` signed with the key `secret`.
pub open spec fn signed_attestation(c: ClaimV, secret: Seq<u8>) -> AttestationV {
    AttestationV {
        record: ATTESTATION_KIND@,
        claim: c,
        proof: Some(
            ProofV { dgid: ed25519_public(secret), sig: ed25519_signature(secret, claim_scope(c)) },
        ),
    }
}

/// Wrapping a claim in an attestation, signed or not, does not move its
/// signing scope: the scope of the wrapped claim is the claim's own, the hash
/// of its canonical bytes.
pub proof fn law_wrapping_keeps_the_scope(c: ClaimV, secret: Seq<u8>)
    ensures
        claim_scope(unsigned_attestation(c).claim) == claim_scope(c),
        claim_scope(signed_attestation(c, secret).claim) == claim_scope(c),
        claim_scope(c) == blake3_digest(canonical_bytes(claim_data(c))),
        signed_attestation(c, secret).proof matches Some(p) && p.sig == ed25519_signature(
            secret,
            claim_scope(unsigned_attestation(c).claim),
        ),
{
}

impl Attestation {
    /// An attestation that carries no signature.
    pub fn unsigned(claim: Claim) -> (a: Self)
        ensures
            a@ == unsigned_attestation(claim@),
            signer_of(a@) is None,
    {
        Attestation { record: owned(ATTESTATION_KIND), claim, proof: None }
    }

    /// `claim` signed by `identity`; its signer is then that identity's group.
    pub fn sign(claim: Claim, identity: &Identity) -> (r: Result<Self, CanonError>)
        ensures
            match r {
                Ok(a) => a@ == signed_attestation(claim@, identity.secret()) && signer_of(a@) == Some(
                    ed25519_public(identity.secret()),
                ),
                Err(_) => !canon_ok(claim_data(claim@)),
            },
            r is Ok,
    {
        let scope = claim.scope()?;
        let sig = identity.sign(scope.as_slice());
        let dgid = identity.dgid();
        Ok(Attestation { record: owned(ATTESTATION_KIND), claim, proof: Some(Proof { dgid, sig }) })
    }

    /// The group that validly signed this attestation's claim.
    pub fn signer(&self) -> (r: Option<Dgid>)
        ensures
            match r {
                Some(d) => signer_of(self@) == Some(d@),
                None => signer_of(self@) is None,
            },
    {
        match &self.proof {
            None => None,
            Some(p) => match self.claim.scope() {
                Err(_) => None,
                Ok(scope) => if identity::verify(p.dgid, scope.as_slice(), p.sig) {
                    Some(p.dgid)
                } else {
                    None
                },
            },
        }
    }

    pub fn to_value(&self) -> (v: Value)
        ensures
            v@ == attestation_data(self@),
    {
        let mut e: Vec<(Value, Value)> = Vec::new();
        proof {
            assert(data_pairs(e@) =~= Seq::<(Data, Data)>::empty());
        }
        put(&mut e, "record", text(self.record.as_str()));
        put(&mut e, "claim", self.claim.to_value());
        let signed = match &self.proof {
            Some(p) => Some(p.to_value()),
            None => None,
        };
        put_opt(&mut e, "proof", signed);
        let ghost d = attestation_data(self@);
        assert(data_pairs(e@) =~= d->Table_0);
        Value::Table(e)
    }

    pub fn from_value(v: &Value) -> (r: Option<Self>)
        ensures
            match r {
                Some(a) => decode_attestation(v@) == Some(a@),
                None => decode_attestation(v@) is None,
            },
    {
        let record = text_field(v, "record");
        let claim = match get_field(v, "claim") {
            Some(c) => Claim::from_value(c),
            None => None,
        };
        let signed = match get_field(v, "proof") {
            None => Some(None),
            Some(Value::Null) => Some(None),
            Some(p) => match Proof::from_value(p) {
                Some(q) => Some(Some(q)),
                None => None,
            },
        };
        match (record, claim, signed) {
            (Some(record), Some(claim), Some(signed)) => Some(Attestation { record, claim, proof: signed }),
            _ => None,
        }
    }

    pub fn encode(&self) -> (r: Result<Vec<u8>, CanonError>)
        ensures
            match r {
                Ok(b) => canon_ok(attestation_data(self@)) && b@ == canonical_bytes(
                    attestation_data(self@),
                ),
                Err(_) => !canon_ok(attestation_data(self@)),
            },
    {
        canonical::to_vec(&self.to_value())
    }

    /// The attestation that `bytes` encode; a record of another type is refused.
    pub fn decode(bytes: &[u8]) -> (r: Result<Self, CanonError>)
        ensures
            match r {
                Ok(a) => read_attestation(bytes@) == Some(a@),
                Err(e) => read_attestation(bytes@) is None && e is Decode,
            },
    {
        let v = canonical::from_slice(bytes)?;
        match Attestation::from_value(&v) {
            None => Err(CanonError::Decode("not an attestation map".to_string())),
            Some(a) => {
                if same_text(a.record.as_str(), ATTESTATION_KIND) {
                    Ok(a)
                } else {
                    Err(CanonError::Decode("the record is of another type".to_string()))
                }
            },
        }
    }

    /// The `att:` address: the hash of the canonical bytes.
    pub fn address(&self) -> (r: Result<AttHash, CanonError>)
        ensures
            match r {
                Ok(a) => canon_ok(attestation_data(self@)) && a.0@ == blake3_digest(
                    canonical_bytes(attestation_data(self@)),
                ),
                Err(_) => !canon_ok(attestation_data(self@)),
            },
    {
        let h = canonical::hash(&self.to_value())?;
        Ok(AttHash::from_hash(h))
    }
}

} // verus!

verus! {

/// A record read back from its canonical encoding is the record, with its
/// body in canonical form.
#[verifier::spinoff_prover]
#[verifier::rlimit(40)]
pub proof fn law_record_round_trip(r: RecordV)
    requires
        canon_ok(record_data(r)),
    ensures
        read_record(canonical_bytes(record_data(r)), r.record) == Some(
            RecordV { body: canon(r.body), ..r },
        ),
{
    reveal_strlit("record");
    reveal_strlit("kind");
    reveal_strlit("body");
    let d = record_data(r);
    let es = d->Table_0;
    assert("record"@[0] != "kind"@[0] && "record"@[0] != "body"@[0] && "kind"@[0] != "body"@[0]);
    assert forall|i: int, j: int| 0 <= i < j < es.len() implies (#[trigger] es[i]).0 != (
    #[trigger] es[j]).0 by {
        if i == 0 && j == 1 {
            assert(es[i].0->Text_0[0] != es[j].0->Text_0[0]);
        } else if i == 0 {
            assert(es[i].0->Text_0[0] != es[j].0->Text_0[0]);
        } else {
            assert(es[i].0->Text_0[0] != es[j].0->Text_0[0]);
        }
    }
    assert(text_keys(es));
    canonical::lemma_round_trip(d);
    lemma_get_canon(es, "record"@);
    lemma_get_canon(es, "kind"@);
    lemma_get_canon(es, "body"@);
    lemma_field_at(es, "record"@, 0);
    lemma_field_at(es, "kind"@, 1);
    lemma_field_at(es, "body"@, 2);
}

} // verus!

verus! {

/// Whether every hash of a claim has the 32 bytes of a BLAKE3 digest.
pub open spec fn claim_wf(c: ClaimV) -> bool {
    &&& c.ci.len() == 32
    &&& (c.td matches Some(h) ==> h.len() == 32)
    &&& (c.blob matches Some(h) ==> h.len() == 32)
    &&& (c.other matches Some(h) ==> h.len() == 32)
}

proof fn lemma_claim_kind_names(k: ClaimKind)
    ensures
        kind_named(kind_label(k)) == Some(k),
{
    reveal_strlit("content");
    reveal_strlit("same-as");
    reveal_strlit("superseded-by");
    reveal_strlit("previous-version");
    assert("content"@.len() == 7 && "same-as"@.len() == 7);
    assert("content"@[0] != "same-as"@[0]);
    assert("superseded-by"@.len() != "previous-version"@.len());
}

/// An optional hash written behind `prefix` reads back.
pub proof fn lemma_opt_hash_round_trip(prefix: Seq<char>, o: Option<Seq<u8>>)
    requires
        prefix.len() > 0,
        !crate::text::is_space(prefix[0]),
        o matches Some(h) ==> h.len() == 32,
    ensures
        opt_hash_at(opt_hash_data(prefix, o), prefix) == Some(o),
{
    if let Some(h) = o {
        crate::address::lemma_prefixed_round_trip(prefix, h);
    }
}

/// A claim read back from its canonical map is the claim.
#[verifier::spinoff_prover]
#[verifier::rlimit(40)]
pub proof fn law_claim_round_trip(c: ClaimV)
    requires
        claim_wf(c),
    ensures
        decode_claim(canon(claim_data(c))) == Some(c),
{
    reveal_strlit("kind");
    reveal_strlit("ci");
    reveal_strlit("td");
    reveal_strlit("blob");
    reveal_strlit("other");
    reveal_strlit("expires");
    let a = (Data::Text("kind"@), Data::Text(kind_label(c.kind)));
    let b = (Data::Text("ci"@), Data::Text(prefixed_text(ci_prefix(), c.ci)));
    let base = seq![a, b];
    assert(base =~= Seq::<(Data, Data)>::empty().push(a).push(b));
    lemma_field_push(Seq::<(Data, Data)>::empty(), a.0, a.1);
    lemma_field_push(Seq::<(Data, Data)>::empty().push(a), b.0, b.1);
    assert(text_keys(base)) by {
        assert("kind"@[0] != "ci"@[0]);
    }
    let s1 = opt_push(base, "td"@, opt_hash_data(td_prefix(), c.td));
    let s2 = opt_push(s1, "blob"@, opt_hash_data(blob_prefix(), c.blob));
    let s3 = opt_push(s2, "other"@, opt_hash_data(ci_prefix(), c.other));
    let s4 = opt_push(s3, "expires"@, opt_text_data(c.expires));
    assert("td"@[0] != "kind"@[0] && "td"@[0] != "ci"@[0]);
    lemma_opt_push(base, "td"@, opt_hash_data(td_prefix(), c.td));
    assert("blob"@[0] != "kind"@[0] && "blob"@ != "ci"@ && "blob"@ != "td"@);
    lemma_opt_push(s1, "blob"@, opt_hash_data(blob_prefix(), c.blob));
    assert("other"@ != "kind"@ && "other"@ != "ci"@ && "other"@ != "td"@ && "other"@ != "blob"@);
    lemma_opt_push(s2, "other"@, opt_hash_data(ci_prefix(), c.other));
    assert("expires"@[0] != "kind"@[0] && "expires"@[0] != "ci"@[0] && "expires"@[0] != "td"@[0]
        && "expires"@[0] != "blob"@[0] && "expires"@[0] != "other"@[0]);
    lemma_opt_push(s3, "expires"@, opt_text_data(c.expires));
    assert(claim_data(c) == Data::Table(s4));
    lemma_get_canon(s4, "kind"@);
    lemma_get_canon(s4, "ci"@);
    lemma_get_canon(s4, "td"@);
    lemma_get_canon(s4, "blob"@);
    lemma_get_canon(s4, "other"@);
    lemma_get_canon(s4, "expires"@);
    lemma_claim_kind_names(c.kind);
    crate::address::lemma_addresses_round_trip(c.ci);
    lemma_opt_hash_round_trip(td_prefix(), c.td);
    lemma_opt_hash_round_trip(blob_prefix(), c.blob);
    lemma_opt_hash_round_trip(ci_prefix(), c.other);
}

} // verus!

verus! {

pub open spec fn proof_wf(p: ProofV) -> bool {
    p.dgid.len() == 32 && p.sig.len() == 64
}

/// A proof read back from its canonical map is the proof.
#[verifier::spinoff_prover]
#[verifier::rlimit(40)]
pub proof fn law_proof_round_trip(p: ProofV)
    requires
        proof_wf(p),
    ensures
        decode_proof(canon(proof_data(p))) == Some(p),
{
    reveal_strlit("dgid");
    reveal_strlit("sig");
    let a = (Data::Text("dgid"@), Data::Text(dgid_prefix() + hex_of(p.dgid)));
    let b = (Data::Text("sig"@), Data::Text(hex_of(p.sig)));
    let s = seq![a, b];
    assert(s =~= Seq::<(Data, Data)>::empty().push(a).push(b));
    lemma_field_push(Seq::<(Data, Data)>::empty(), a.0, a.1);
    lemma_field_push(Seq::<(Data, Data)>::empty().push(a), b.0, b.1);
    assert(text_keys(s)) by {
        assert("dgid"@[0] != "sig"@[0]);
    }
    lemma_get_canon(s, "dgid"@);
    lemma_get_canon(s, "sig"@);
    crate::identity::lemma_dgid_round_trip(p.dgid);
    crate::address::lemma_hex_trim_round_trip(p.sig);
}

pub open spec fn attestation_wf(a: AttestationV) -> bool {
    claim_wf(a.claim) && (a.proof matches Some(p) ==> proof_wf(p))
}

/// An attestation read back from its canonical encoding is the attestation,
/// and so names the same signer.
#[verifier::spinoff_prover]
#[verifier::rlimit(40)]
pub proof fn law_attestation_round_trip(a: AttestationV)
    requires
        attestation_wf(a),
        canon_ok(attestation_data(a)),
        a.record == ATTESTATION_KIND@,
    ensures
        read_attestation(canonical_bytes(attestation_data(a))) == Some(a),
        signer_of(read_attestation(canonical_bytes(attestation_data(a)))->0) == signer_of(a),
{
    reveal_strlit("record");
    reveal_strlit("claim");
    reveal_strlit("proof");
    let d = attestation_data(a);
    canonical::lemma_round_trip(d);
    let x = (Data::Text("record"@), Data::Text(a.record));
    let y = (Data::Text("claim"@), claim_data(a.claim));
    let base = seq![x, y];
    assert(base =~= Seq::<(Data, Data)>::empty().push(x).push(y));
    lemma_field_push(Seq::<(Data, Data)>::empty(), x.0, x.1);
    lemma_field_push(Seq::<(Data, Data)>::empty().push(x), y.0, y.1);
    assert(text_keys(base)) by {
        assert("record"@[0] != "claim"@[0]);
    }
    assert("proof"@[0] != "record"@[0] && "proof"@[0] != "claim"@[0]);
    lemma_opt_push(base, "proof"@, opt_proof_data(a.proof));
    let s = opt_push(base, "proof"@, opt_proof_data(a.proof));
    lemma_get_canon(s, "record"@);
    lemma_get_canon(s, "claim"@);
    lemma_get_canon(s, "proof"@);
    law_claim_round_trip(a.claim);
    if let Some(p) = a.proof {
        law_proof_round_trip(p);
    }
}

} // verus!

verus! {

/// A record whose body is in canonical form, as every minted record's is,
/// reads back from its encoding exactly.
pub proof fn law_minted_record_round_trip(r: RecordV)
    requires
        canon_ok(record_data(r)),
        r.body == canon(r.body),
    ensures
        read_record(canonical_bytes(record_data(r)), r.record) == Some(r),
{
    law_record_round_trip(r);
}

} // verus!
