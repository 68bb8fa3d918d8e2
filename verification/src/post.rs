//! What a write to the gateway asks for: the fields of its JSON body read
//! into the input of the handler that the path chose.
use vstd::prelude::*;
use crate::address::{CiHash, TdHash};
use crate::canonical::copy_value;
use crate::cbor::{Value, Data, data_pairs, lemma_data_pairs};
use crate::hex::hex_of;
use crate::fields::{get, get_field};
use crate::gateway::{PostPlan, PostPlanV};
use crate::ops::{parse_hash, parse_hash_spec, debug_quoted, not_a_hash, quoted, describe, describe_spec};
use crate::record::same_text;
use crate::store::{BlobHash, MemBlobs, blake3_digest};
use crate::text::{concat, no_chars, owned, trimmed};
use crate::trust::{TrustLevel, parse_level};

verus! {

/// A change to a collection.
#[derive(Debug, Clone)]
pub enum Edit {
    Add { ci: CiHash, label: Option<String>, default_td: Option<TdHash> },
    Remove { ci: CiHash },
    Attest { hash: BlobHash },
    Record { hash: BlobHash },
}

pub enum EditV {
    Add { ci: Seq<u8>, label: Option<Seq<char>>, default_td: Option<Seq<u8>> },
    Remove { ci: Seq<u8> },
    Attest { hash: Seq<u8> },
    Record { hash: Seq<u8> },
}

impl View for Edit {
    type V = EditV;

    open spec fn view(&self) -> EditV {
        match self {
            Edit::Add { ci, label, default_td } => EditV::Add {
                ci: ci.0@,
                label: match label {
                    Some(l) => Some(l@),
                    None => None,
                },
                default_td: match default_td {
                    Some(t) => Some(t.0@),
                    None => None,
                },
            },
            Edit::Remove { ci } => EditV::Remove { ci: ci.0@ },
            Edit::Attest { hash } => EditV::Attest { hash: hash@ },
            Edit::Record { hash } => EditV::Record { hash: hash@ },
        }
    }
}

/// What a write hands its handler.
#[derive(Debug)]
pub enum PostInput {
    Pair,
    Revoke { node_id: String },
    Seed { value: String },
    /// The body itself is the blob.
    Blob,
    Cir { kind: String, body: Value },
    Tdr { kind: String, body: Value },
    AttestContent { ci: CiHash, td: TdHash, blob: BlobHash },
    AttestRelation { relation: String, ci: CiHash, other: CiHash },
    Trust { who: String, level: TrustLevel },
    Collection { name: String, edit: Edit },
}

pub enum PostInputV {
    Pair,
    Revoke { node_id: Seq<char> },
    Seed { value: Seq<char> },
    Blob,
    Cir { kind: Seq<char>, body: Data },
    Tdr { kind: Seq<char>, body: Data },
    AttestContent { ci: Seq<u8>, td: Seq<u8>, blob: Seq<u8> },
    AttestRelation { relation: Seq<char>, ci: Seq<u8>, other: Seq<u8> },
    Trust { who: Seq<char>, level: TrustLevel },
    Collection { name: Seq<char>, edit: EditV },
}

impl View for PostInput {
    type V = PostInputV;

    open spec fn view(&self) -> PostInputV {
        match self {
            PostInput::Pair => PostInputV::Pair,
            PostInput::Revoke { node_id } => PostInputV::Revoke { node_id: node_id@ },
            PostInput::Seed { value } => PostInputV::Seed { value: value@ },
            PostInput::Blob => PostInputV::Blob,
            PostInput::Cir { kind, body } => PostInputV::Cir { kind: kind@, body: body@ },
            PostInput::Tdr { kind, body } => PostInputV::Tdr { kind: kind@, body: body@ },
            PostInput::AttestContent { ci, td, blob } => PostInputV::AttestContent {
                ci: ci.0@,
                td: td.0@,
                blob: blob@,
            },
            PostInput::AttestRelation { relation, ci, other } => PostInputV::AttestRelation {
                relation: relation@,
                ci: ci.0@,
                other: other.0@,
            },
            PostInput::Trust { who, level } => PostInputV::Trust { who: who@, level: *level },
            PostInput::Collection { name, edit } => PostInputV::Collection { name: name@, edit: edit@ },
        }
    }
}

/// The field `name` of the body when it is a text that is not empty.
pub open spec fn text_in(body: Data, name: Seq<char>) -> Option<Seq<char>> {
    match get(body, name) {
        Some(Data::Text(t)) => if t.len() > 0 {
            Some(t)
        } else {
            None
        },
        _ => None,
    }
}

/// The complaint about a field that is absent, empty or not text.
pub open spec fn missing(name: Seq<char>) -> Seq<char> {
    "missing \""@ + name + "\""@
}

/// The hash named by the field `name`, or why there is none.
pub open spec fn hash_in(body: Data, name: Seq<char>) -> Result<Seq<u8>, Seq<char>> {
    match text_in(body, name) {
        None => Err(missing(name)),
        Some(t) => match parse_hash_spec(t) {
            Some(h) => Ok(h),
            None => Err(debug_quoted(trimmed(t)) + not_a_hash()),
        },
    }
}

/// The body a record is minted from: the `body` field, an empty map without one.
pub open spec fn record_body(body: Data) -> Data {
    match get(body, "body"@) {
        Some(d) => d,
        None => Data::Table(Seq::empty()),
    }
}

/// An attestation of content (`ci`, `td`, `blob`) or, with a text
/// `relation`, of a relation from `ci` to `other`.
pub open spec fn attest_spec(body: Data) -> Result<PostInputV, Seq<char>> {
    match hash_in(body, "ci"@) {
        Err(m) => Err(m),
        Ok(ci) => match get(body, "relation"@) {
            Some(Data::Text(relation)) => match hash_in(body, "other"@) {
                Err(m) => Err(m),
                Ok(other) => Ok(PostInputV::AttestRelation { relation, ci, other }),
            },
            _ => match hash_in(body, "td"@) {
                Err(m) => Err(m),
                Ok(td) => match hash_in(body, "blob"@) {
                    Err(m) => Err(m),
                    Ok(blob) => Ok(PostInputV::AttestContent { ci, td, blob }),
                },
            },
        },
    }
}

pub open spec fn level_complaint() -> Seq<char> {
    "level must be one of: unknown, contact, cache, mesh"@
}

/// A change of trust: who, and a level by its label.
pub open spec fn trust_spec(body: Data) -> Result<PostInputV, Seq<char>> {
    match text_in(body, "who"@) {
        None => Err(missing("who"@)),
        Some(who) => match text_in(body, "level"@) {
            None => Err(missing("level"@)),
            Some(l) => match parse_level(l) {
                Some(level) => Ok(PostInputV::Trust { who, level }),
                None => Err(level_complaint()),
            },
        },
    }
}

/// An added item: its `ci`, a `label` and a default `td` where they are
/// texts that are not empty.
pub open spec fn add_spec(body: Data) -> Result<EditV, Seq<char>> {
    match hash_in(body, "ci"@) {
        Err(m) => Err(m),
        Ok(ci) => match text_in(body, "td"@) {
            None => Ok(EditV::Add { ci, label: text_in(body, "label"@), default_td: None }),
            Some(t) => match parse_hash_spec(t) {
                Some(td) => Ok(EditV::Add { ci, label: text_in(body, "label"@), default_td: Some(td) }),
                None => Err(debug_quoted(trimmed(t)) + not_a_hash()),
            },
        },
    }
}

/// The change to a collection that the `op` field names.
pub open spec fn edit_spec(body: Data) -> Result<EditV, Seq<char>> {
    match text_in(body, "op"@) {
        None => Err(missing("op"@)),
        Some(op) => if op == "add"@ {
            add_spec(body)
        } else if op == "remove"@ {
            match hash_in(body, "ci"@) {
                Err(m) => Err(m),
                Ok(ci) => Ok(EditV::Remove { ci }),
            }
        } else if op == "attest"@ {
            match hash_in(body, "hash"@) {
                Err(m) => Err(m),
                Ok(hash) => Ok(EditV::Attest { hash }),
            }
        } else if op == "record"@ {
            match hash_in(body, "hash"@) {
                Err(m) => Err(m),
                Ok(hash) => Ok(EditV::Record { hash }),
            }
        } else {
            Err("unknown op "@ + debug_quoted(op))
        },
    }
}

/// A refusal as the handler answers it: 422 with the complaint.
pub open spec fn refused(r: Result<PostInputV, Seq<char>>) -> Result<PostInputV, (u16, Seq<char>)> {
    match r {
        Ok(i) => Ok(i),
        Err(m) => Err((422u16, m)),
    }
}

/// What a write to the handler `plan` with the JSON `body` asks for, or the
/// status and message it is refused with. A pairing and a blob read no JSON.
pub open spec fn post_input_spec(plan: PostPlanV, body: Data) -> Result<PostInputV, (u16, Seq<char>)> {
    match plan {
        PostPlanV::Pair => Ok(PostInputV::Pair),
        PostPlanV::Blob => Ok(PostInputV::Blob),
        PostPlanV::Unknown => Err((404u16, "unknown gateway path"@)),
        _ => if !(body is Table) {
            Err((400u16, "body must be a JSON object"@))
        } else {
            match plan {
                PostPlanV::Revoke => match text_in(body, "node_id"@) {
                    Some(node_id) => Ok(PostInputV::Revoke { node_id }),
                    None => Err((422u16, missing("node_id"@))),
                },
                PostPlanV::Seed => match text_in(body, "value"@) {
                    Some(value) => Ok(PostInputV::Seed { value }),
                    None => Err((400u16, missing("value"@))),
                },
                PostPlanV::Cir => match text_in(body, "kind"@) {
                    Some(kind) => Ok(PostInputV::Cir { kind, body: record_body(body) }),
                    None => Err((422u16, missing("kind"@))),
                },
                PostPlanV::Tdr => match text_in(body, "kind"@) {
                    Some(kind) => Ok(PostInputV::Tdr { kind, body: record_body(body) }),
                    None => Err((422u16, missing("kind"@))),
                },
                PostPlanV::Attest => refused(attest_spec(body)),
                PostPlanV::Trust => refused(trust_spec(body)),
                PostPlanV::Collection { name } => match edit_spec(body) {
                    Ok(edit) => Ok(PostInputV::Collection { name, edit }),
                    Err(m) => Err((422u16, m)),
                },
                _ => Err((404u16, "unknown gateway path"@)),
            }
        },
    }
}

fn text_field(body: &Value, name: &str) -> (r: Option<String>)
    ensures
        match r {
            Some(t) => text_in(body@, name@) == Some(t@),
            None => text_in(body@, name@) is None,
        },
{
    match get_field(body, name) {
        Some(Value::Text(t)) => if no_chars(t.as_str()) {
            None
        } else {
            Some(t.clone())
        },
        _ => None,
    }
}

fn missing_field(name: &str) -> (m: String)
    ensures
        m@ == missing(name@),
{
    concat(concat("missing \"", name).as_str(), "\"")
}

fn hash_field(body: &Value, name: &str) -> (r: Result<BlobHash, String>)
    ensures
        match r {
            Ok(h) => hash_in(body@, name@) == Ok::<Seq<u8>, Seq<char>>(h@),
            Err(m) => hash_in(body@, name@) == Err::<Seq<u8>, Seq<char>>(m@),
        },
{
    match text_field(body, name) {
        None => Err(missing_field(name)),
        Some(t) => parse_hash(t.as_str()),
    }
}

fn attest_input(body: &Value) -> (r: Result<PostInput, String>)
    ensures
        match r {
            Ok(i) => attest_spec(body@) == Ok::<PostInputV, Seq<char>>(i@),
            Err(m) => attest_spec(body@) == Err::<PostInputV, Seq<char>>(m@),
        },
{
    let ci = match hash_field(body, "ci") {
        Ok(h) => CiHash(h),
        Err(m) => return Err(m),
    };
    match get_field(body, "relation") {
        Some(Value::Text(relation)) => match hash_field(body, "other") {
            Ok(other) => Ok(PostInput::AttestRelation { relation: relation.clone(), ci, other: CiHash(other) }),
            Err(m) => Err(m),
        },
        _ => {
            let td = match hash_field(body, "td") {
                Ok(h) => TdHash(h),
                Err(m) => return Err(m),
            };
            match hash_field(body, "blob") {
                Ok(blob) => Ok(PostInput::AttestContent { ci, td, blob }),
                Err(m) => Err(m),
            }
        },
    }
}

fn trust_input(body: &Value) -> (r: Result<PostInput, String>)
    ensures
        match r {
            Ok(i) => trust_spec(body@) == Ok::<PostInputV, Seq<char>>(i@),
            Err(m) => trust_spec(body@) == Err::<PostInputV, Seq<char>>(m@),
        },
{
    let who = match text_field(body, "who") {
        Some(w) => w,
        None => return Err(missing_field("who")),
    };
    let l = match text_field(body, "level") {
        Some(l) => l,
        None => return Err(missing_field("level")),
    };
    match TrustLevel::parse(l.as_str()) {
        Some(level) => Ok(PostInput::Trust { who, level }),
        None => Err(crate::text::owned("level must be one of: unknown, contact, cache, mesh")),
    }
}

fn add_input(body: &Value) -> (r: Result<Edit, String>)
    ensures
        match r {
            Ok(e) => add_spec(body@) == Ok::<EditV, Seq<char>>(e@),
            Err(m) => add_spec(body@) == Err::<EditV, Seq<char>>(m@),
        },
{
    let ci = match hash_field(body, "ci") {
        Ok(h) => CiHash(h),
        Err(m) => return Err(m),
    };
    let label = text_field(body, "label");
    match text_field(body, "td") {
        None => Ok(Edit::Add { ci, label, default_td: None }),
        Some(t) => match parse_hash(t.as_str()) {
            Ok(td) => Ok(Edit::Add { ci, label, default_td: Some(TdHash(td)) }),
            Err(m) => Err(m),
        },
    }
}

fn edit_input(body: &Value) -> (r: Result<Edit, String>)
    ensures
        match r {
            Ok(e) => edit_spec(body@) == Ok::<EditV, Seq<char>>(e@),
            Err(m) => edit_spec(body@) == Err::<EditV, Seq<char>>(m@),
        },
{
    let op = match text_field(body, "op") {
        Some(op) => op,
        None => return Err(missing_field("op")),
    };
    if same_text(op.as_str(), "add") {
        add_input(body)
    } else if same_text(op.as_str(), "remove") {
        match hash_field(body, "ci") {
            Ok(h) => Ok(Edit::Remove { ci: CiHash(h) }),
            Err(m) => Err(m),
        }
    } else if same_text(op.as_str(), "attest") {
        match hash_field(body, "hash") {
            Ok(hash) => Ok(Edit::Attest { hash }),
            Err(m) => Err(m),
        }
    } else if same_text(op.as_str(), "record") {
        match hash_field(body, "hash") {
            Ok(hash) => Ok(Edit::Record { hash }),
            Err(m) => Err(m),
        }
    } else {
        Err(concat("unknown op ", quoted(op.as_str()).as_str()))
    }
}

fn record_body_of(body: &Value) -> (b: Value)
    ensures
        b@ == record_body(body@),
{
    match get_field(body, "body") {
        Some(v) => copy_value(v),
        None => {
            let entries: Vec<(Value, Value)> = Vec::new();
            assert(data_pairs(entries@) =~= Seq::<(Data, Data)>::empty());
            Value::Table(entries)
        },
    }
}

/// What a write to the handler `plan` with the JSON `body` asks for; the
/// error is the status and message the gateway refuses it with.
pub fn post_input(plan: &PostPlan, body: &Value) -> (r: Result<PostInput, (u16, String)>)
    ensures
        match r {
            Ok(i) => post_input_spec(plan@, body@) == Ok::<PostInputV, (u16, Seq<char>)>(i@),
            Err((s, m)) => post_input_spec(plan@, body@) == Err::<PostInputV, (u16, Seq<char>)>((s, m@)),
        },
{
    match plan {
        PostPlan::Pair => return Ok(PostInput::Pair),
        PostPlan::Blob => return Ok(PostInput::Blob),
        PostPlan::Unknown => return Err((404, crate::text::owned("unknown gateway path"))),
        _ => {},
    }
    match body {
        Value::Table(_) => {},
        _ => return Err((400, crate::text::owned("body must be a JSON object"))),
    }
    match plan {
        PostPlan::Revoke => match text_field(body, "node_id") {
            Some(node_id) => Ok(PostInput::Revoke { node_id }),
            None => Err((422, missing_field("node_id"))),
        },
        PostPlan::Seed => match text_field(body, "value") {
            Some(value) => Ok(PostInput::Seed { value }),
            None => Err((400, missing_field("value"))),
        },
        PostPlan::Cir => match text_field(body, "kind") {
            Some(kind) => Ok(PostInput::Cir { kind, body: record_body_of(body) }),
            None => Err((422, missing_field("kind"))),
        },
        PostPlan::Tdr => match text_field(body, "kind") {
            Some(kind) => Ok(PostInput::Tdr { kind, body: record_body_of(body) }),
            None => Err((422, missing_field("kind"))),
        },
        PostPlan::Attest => match attest_input(body) {
            Ok(i) => Ok(i),
            Err(m) => Err((422, m)),
        },
        PostPlan::Trust => match trust_input(body) {
            Ok(i) => Ok(i),
            Err(m) => Err((422, m)),
        },
        PostPlan::Collection { name } => match edit_input(body) {
            Ok(edit) => Ok(PostInput::Collection { name: name.clone(), edit }),
            Err(m) => Err((422, m)),
        },
        _ => Err((404, crate::text::owned("unknown gateway path"))),
    }
}

/// The answer to a stored blob: its hash in hex, its size and what it holds.
pub open spec fn blob_reply_spec(hash: Seq<u8>, body: Seq<u8>) -> Data {
    Data::Table(
        seq![
            (Data::Text("hash"@), Data::Text(hex_of(hash))),
            (Data::Text("size"@), Data::Integer(body.len() as int)),
            (Data::Text("kind"@), Data::Text(describe_spec(body))),
        ],
    )
}

/// What a write of the blob `body`, stored under `hash`, is answered with:
/// 200 and the blob's description.
pub fn blob_reply(hash: &BlobHash, body: &[u8]) -> (r: (u16, Value))
    ensures
        r.0 == 200,
        r.1@ == blob_reply_spec(hash@, body@),
{
    let entries: Vec<(Value, Value)> = vec![
        (Value::Text(owned("hash")), Value::Text(hash.to_hex())),
        (Value::Text(owned("size")), Value::Integer(body.len() as i128)),
        (Value::Text(owned("kind")), Value::Text(describe(body))),
    ];
    proof {
        lemma_data_pairs(entries@);
    }
    assert(data_pairs(entries@) =~= seq![
        (Data::Text("hash"@), Data::Text(hex_of(hash@))),
        (Data::Text("size"@), Data::Integer(body@.len() as int)),
        (Data::Text("kind"@), Data::Text(describe_spec(body@))),
    ]);
    (200, Value::Table(entries))
}

/// Stores a written blob and answers the write: 200, with the blob's
/// address, size and kind. Bytes the store already held under that address
/// stay; nothing else changes.
pub fn write_blob(store: &mut MemBlobs, body: &[u8]) -> (r: (u16, Value))
    ensures
        r.0 == 200,
        r.1@ == blob_reply_spec(blake3_digest(body@), body@),
        final(store).held(blake3_digest(body@)) == match old(store).held(blake3_digest(body@)) {
            Some(b) => Some(b),
            None => Some(body@),
        },
        forall|k: Seq<u8>| k != blake3_digest(body@) ==> #[trigger] final(store).held(k) == old(store).held(k),
{
    let hash = match store.put(body) {
        Ok(h) => h,
        Err(_) => BlobHash::of(body),
    };
    blob_reply(&hash, body)
}

/// Why an edit of the collection `name` is refused before anything is
/// signed: a name no collection can have, an added identity the store lacks
/// or holds as something other than a CIR, an attestation the store does
/// not hold as one, or a record the store lacks.
pub open spec fn edit_refusal(store: crate::store::MemBlobs, name: Seq<char>, e: EditV) -> Option<Seq<char>> {
    if !crate::refs::name_ok(name) {
        Some(debug_quoted(name) + " is not a usable collection name"@)
    } else {
        match e {
            EditV::Add { ci, .. } => match store.held(ci) {
                None => Some(crate::address::prefixed_text(crate::address::ci_prefix(), ci) + " is not in the store"@),
                Some(b) => if crate::record::read_record(b, crate::record::CIR_KIND@) is None {
                    Some(crate::address::prefixed_text(crate::address::ci_prefix(), ci) + " is not a CIR"@)
                } else {
                    None
                },
            },
            EditV::Remove { .. } => None,
            EditV::Attest { hash } => match store.held(hash) {
                Some(b) => if crate::record::read_attestation(b) is None {
                    Some(hex_of(hash) + " is not an attestation in the store"@)
                } else {
                    None
                },
                None => Some(hex_of(hash) + " is not an attestation in the store"@),
            },
            EditV::Record { hash } => if store.held(hash) is None {
                Some(hex_of(hash) + " is not in the store"@)
            } else {
                None
            },
        }
    }
}

/// Whether the edit of the collection `name` may go ahead; the refusal otherwise.
pub fn check_edit(store: &crate::store::MemBlobs, name: &str, edit: &Edit) -> (r: Result<(), String>)
    ensures
        match r {
            Ok(()) => edit_refusal(*store, name@, edit@) is None,
            Err(m) => edit_refusal(*store, name@, edit@) == Some(m@),
        },
{
    if !crate::refs::valid_name(name) {
        return Err(concat(quoted(name).as_str(), " is not a usable collection name"));
    }
    match edit {
        Edit::Add { ci, .. } => match store.get(ci.0) {
            Err(_) => Err(concat(ci.to_string().as_str(), " is not in the store")),
            Ok(b) => match crate::record::Cir::decode(b.as_slice()) {
                Ok(_) => Ok(()),
                Err(_) => Err(concat(ci.to_string().as_str(), " is not a CIR")),
            },
        },
        Edit::Remove { .. } => Ok(()),
        Edit::Attest { hash } => match store.get(*hash) {
            Ok(b) => match crate::record::Attestation::decode(b.as_slice()) {
                Ok(_) => Ok(()),
                Err(_) => Err(concat(hash.to_hex().as_str(), " is not an attestation in the store")),
            },
            Err(_) => Err(concat(hash.to_hex().as_str(), " is not an attestation in the store")),
        },
        Edit::Record { hash } => if store.has(*hash) {
            Ok(())
        } else {
            Err(concat(hash.to_hex().as_str(), " is not in the store"))
        },
    }
}

} // verus!
