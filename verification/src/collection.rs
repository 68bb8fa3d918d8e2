//! Collections: named, owned lists of content identities, built from signed
//! operation records and published as heads that name every hash they need.
use vstd::prelude::*;
use crate::address::{CiHash, ColHash, TdHash, ci_prefix, td_prefix, prefixed_text, parse_prefixed};
use crate::canonical::{self, CanonError, canonical_bytes};
use crate::cbor::{Value, Data, dec, data_pairs};
use crate::fields::{
    get, opt_push, put, put_opt, hash_at, opt_hash_at, opt_text_at, text_of, get_field, text_field,
    hash_field, opt_hash_field, opt_text_field, hash_text, text, hash_views, hash_texts, hash_list,
    read_hash_list, hashes_at, default_hashes_at, opt_hashes_at, text_keys, lemma_get_canon,
    lemma_field_push, lemma_opt_push, lemma_text_keys_push,
};
use crate::hex::hex_of;
use crate::canonical::{lex_le, bytes_le};
use crate::identity::{self, Dgid, Identity, parse_dgid, dgid_prefix, ed25519_public, ed25519_signature, ed25519_accepts};
use crate::record::{
    text_fits, text_fits_str, entry_ok, lemma_table_ok, lemma_ascii_fits, lemma_hex_text_fits, lemma_opt_push_ok,
    lemma_hash_text_ok,
};
use crate::record::{
    Proof, ProofV, proof_opt, opt_proof_data, decode_proof, canon_ok, same_text, opt_text_data,
    opt_hash_data, text_opt, td_opt, proof_wf, law_proof_round_trip, lemma_opt_hash_round_trip,
};
use crate::canonical::{canon, canon_list};
use crate::store::{BlobHash, blake3_digest};
use crate::text::{owned, no_chars};
use crate::sorted::{
    sorted_set, insert_all, lemma_sorted_set, holds, union, union_spec, increasing, lemma_sorted_union,
    lemma_union_members,
};

verus! {

pub const COLLECTION_RECORD: &'static str = "collection";

pub const COLLECTION_KIND: &'static str = "collection";

pub const OP_KIND: &'static str = "collection-op";

/// What an operation does to a collection.
#[derive(Debug, Clone, Copy, PartialEq, Eq, Structural)]
pub enum OpKind {
    Add,
    Remove,
    Reorder,
}

pub open spec fn op_label(k: OpKind) -> Seq<char> {
    match k {
        OpKind::Add => "add"@,
        OpKind::Remove => "remove"@,
        OpKind::Reorder => "reorder"@,
    }
}

pub open spec fn op_named(t: Seq<char>) -> Option<OpKind> {
    if t == "add"@ {
        Some(OpKind::Add)
    } else if t == "remove"@ {
        Some(OpKind::Remove)
    } else if t == "reorder"@ {
        Some(OpKind::Reorder)
    } else {
        None
    }
}

impl OpKind {
    pub fn label(&self) -> (s: &'static str)
        ensures
            s@ == op_label(*self),
    {
        match self {
            OpKind::Add => "add",
            OpKind::Remove => "remove",
            OpKind::Reorder => "reorder",
        }
    }

    pub fn parse(t: &str) -> (r: Option<Self>)
        ensures
            r == op_named(t@),
    {
        if same_text(t, "add") {
            Some(OpKind::Add)
        } else if same_text(t, "remove") {
            Some(OpKind::Remove)
        } else if same_text(t, "reorder") {
            Some(OpKind::Reorder)
        } else {
            None
        }
    }
}

/// An entry of a collection: a content identity, with an optional label and
/// an optional transform to prefer for it.
#[derive(Debug, Clone, PartialEq)]
pub struct Item {
    pub ci: CiHash,
    pub label: Option<String>,
    pub default_td: Option<TdHash>,
}

pub struct ItemV {
    pub ci: Seq<u8>,
    pub label: Option<Seq<char>>,
    pub default_td: Option<Seq<u8>>,
}

impl View for Item {
    type V = ItemV;

    open spec fn view(&self) -> ItemV {
        ItemV { ci: self.ci.0@, label: text_opt(self.label), default_td: td_opt(self.default_td) }
    }
}

pub open spec fn item_data(i: ItemV) -> Data {
    Data::Table(
        opt_push(
            opt_push(
                seq![(Data::Text("ci"@), Data::Text(prefixed_text(ci_prefix(), i.ci)))],
                "label"@,
                opt_text_data(i.label),
            ),
            "default_td"@,
            opt_hash_data(td_prefix(), i.default_td),
        ),
    )
}

pub open spec fn decode_item(d: Data) -> Option<ItemV> {
    let ci = hash_at(get(d, "ci"@), ci_prefix());
    let label = opt_text_at(get(d, "label"@));
    let default_td = opt_hash_at(get(d, "default_td"@), td_prefix());
    if ci is Some && label is Some && default_td is Some {
        Some(ItemV { ci: ci->0, label: label->0, default_td: default_td->0 })
    } else {
        None
    }
}

impl Item {
    pub fn new(ci: CiHash) -> (i: Self)
        ensures
            i@ == (ItemV { ci: ci.0@, label: None, default_td: None }),
    {
        Item { ci, label: None, default_td: None }
    }

    pub fn labelled(ci: CiHash, label: &str) -> (i: Self)
        ensures
            i@ == (ItemV { ci: ci.0@, label: Some(label@), default_td: None }),
    {
        Item { ci, label: Some(owned(label)), default_td: None }
    }

    /// A copy of this item.
    pub fn copy(&self) -> (c: Self)
        ensures
            c@ == self@,
    {
        let label = match &self.label {
            Some(l) => Some(l.clone()),
            None => None,
        };
        Item { ci: self.ci, label, default_td: self.default_td }
    }

    pub fn to_value(&self) -> (v: Value)
        ensures
            v@ == item_data(self@),
    {
        let mut e: Vec<(Value, Value)> = Vec::new();
        proof {
            assert(data_pairs(e@) =~= Seq::<(Data, Data)>::empty());
        }
        put(&mut e, "ci", hash_text(&CiHash::prefix(), &self.ci.0));
        let label = match &self.label {
            Some(l) => Some(Value::Text(l.clone())),
            None => None,
        };
        put_opt(&mut e, "label", label);
        let td = match self.default_td {
            Some(t) => Some(hash_text(&TdHash::prefix(), &t.0)),
            None => None,
        };
        put_opt(&mut e, "default_td", td);
        let ghost d = item_data(self@);
        assert(data_pairs(e@) =~= d->Table_0);
        Value::Table(e)
    }

    pub fn from_value(v: &Value) -> (r: Option<Self>)
        ensures
            match r {
                Some(i) => decode_item(v@) == Some(i@),
                None => decode_item(v@) is None,
            },
    {
        let ci = hash_field(v, "ci", &CiHash::prefix());
        let label = opt_text_field(v, "label");
        let td = opt_hash_field(v, "default_td", &TdHash::prefix());
        match (ci, label, td) {
            (Some(ci), Some(label), Some(td)) => {
                let default_td = match td {
                    Some(h) => Some(TdHash::from_hash(h)),
                    None => None,
                };
                Some(Item { ci: CiHash::from_hash(ci), label, default_td })
            },
            _ => None,
        }
    }
}

/// What one signed operation claims: its kind, its collection, the owner it
/// speaks for, its sequence number and its argument.
#[derive(Debug, Clone, PartialEq)]
pub struct OpClaim {
    pub kind: OpKind,
    pub collection: String,
    pub owner: Dgid,
    pub seq: u64,
    pub item: Option<Item>,
    pub target: Option<CiHash>,
    pub order: Option<Vec<CiHash>>,
}

pub struct OpClaimV {
    pub kind: OpKind,
    pub collection: Seq<char>,
    pub owner: Seq<u8>,
    pub seq: u64,
    pub item: Option<ItemV>,
    pub target: Option<Seq<u8>>,
    pub order: Option<Seq<Seq<u8>>>,
}

pub open spec fn ci_views(v: Seq<CiHash>) -> Seq<Seq<u8>> {
    Seq::new(v.len(), |i: int| v[i].0@)
}

pub open spec fn item_opt(o: Option<Item>) -> Option<ItemV> {
    match o {
        Some(i) => Some(i@),
        None => None,
    }
}

pub open spec fn order_opt(o: Option<Vec<CiHash>>) -> Option<Seq<Seq<u8>>> {
    match o {
        Some(v) => Some(ci_views(v@)),
        None => None,
    }
}

pub open spec fn ci_opt(o: Option<CiHash>) -> Option<Seq<u8>> {
    match o {
        Some(h) => Some(h.0@),
        None => None,
    }
}

impl View for OpClaim {
    type V = OpClaimV;

    open spec fn view(&self) -> OpClaimV {
        OpClaimV {
            kind: self.kind,
            collection: self.collection@,
            owner: self.owner@,
            seq: self.seq,
            item: item_opt(self.item),
            target: ci_opt(self.target),
            order: order_opt(self.order),
        }
    }
}

pub open spec fn opt_item_data(o: Option<ItemV>) -> Option<Data> {
    match o {
        Some(i) => Some(item_data(i)),
        None => None,
    }
}

pub open spec fn opt_order_data(o: Option<Seq<Seq<u8>>>) -> Option<Data> {
    match o {
        Some(v) => Some(Data::Array(hash_texts(ci_prefix(), v))),
        None => None,
    }
}

pub open spec fn dgid_text(d: Seq<u8>) -> Seq<char> {
    dgid_prefix() + hex_of(d)
}

pub open spec fn op_claim_data(c: OpClaimV) -> Data {
    Data::Table(
        opt_push(
            opt_push(
                opt_push(
                    seq![
                        (Data::Text("kind"@), Data::Text(op_label(c.kind))),
                        (Data::Text("collection"@), Data::Text(c.collection)),
                        (Data::Text("owner"@), Data::Text(dgid_text(c.owner))),
                        (Data::Text("seq"@), Data::Integer(c.seq as int)),
                    ],
                    "item"@,
                    opt_item_data(c.item),
                ),
                "target"@,
                opt_hash_data(ci_prefix(), c.target),
            ),
            "order"@,
            opt_order_data(c.order),
        ),
    )
}

/// An operation's claim encodes without floats when its hashes are hashes,
/// its texts fit and its order is countable.
proof fn lemma_op_claim_ok(c: OpClaimV)
    requires
        c.owner.len() == 32,
        text_fits(c.collection),
        c.item matches Some(i) ==> i.ci.len() == 32 && (i.label matches Some(t) ==> text_fits(t)) && (
        i.default_td matches Some(h) ==> h.len() == 32),
        c.target matches Some(h) ==> h.len() == 32,
        c.order matches Some(v) ==> v.len() < crate::cbor::u64_lim() && forall|i: int|
            0 <= i < v.len() ==> (#[trigger] v[i]).len() == 32,
    ensures
        canon_ok(op_claim_data(c)),
{
    reveal_strlit("kind");
    reveal_strlit("collection");
    reveal_strlit("owner");
    reveal_strlit("seq");
    reveal_strlit("item");
    reveal_strlit("target");
    reveal_strlit("order");
    reveal_strlit("add");
    reveal_strlit("remove");
    reveal_strlit("reorder");
    reveal_strlit("ci");
    reveal_strlit("label");
    reveal_strlit("default_td");
    lemma_ascii_fits("kind"@);
    lemma_ascii_fits("collection"@);
    lemma_ascii_fits("owner"@);
    lemma_ascii_fits("seq"@);
    lemma_ascii_fits("item"@);
    lemma_ascii_fits("target"@);
    lemma_ascii_fits("order"@);
    lemma_ascii_fits("ci"@);
    lemma_ascii_fits("label"@);
    lemma_ascii_fits("default_td"@);
    lemma_ascii_fits(op_label(c.kind));
    lemma_hex_text_fits(dgid_prefix(), c.owner);
    let e0 = seq![
        (Data::Text("kind"@), Data::Text(op_label(c.kind))),
        (Data::Text("collection"@), Data::Text(c.collection)),
        (Data::Text("owner"@), Data::Text(dgid_text(c.owner))),
        (Data::Text("seq"@), Data::Integer(c.seq as int)),
    ];
    assert forall|i: int| 0 <= i < e0.len() implies entry_ok(#[trigger] e0[i]) by {}
    if let Some(it) = c.item {
        lemma_hex_text_fits(ci_prefix(), it.ci);
        let f0 = seq![(Data::Text("ci"@), Data::Text(prefixed_text(ci_prefix(), it.ci)))];
        assert(entry_ok(f0[0]));
        let f1 = opt_push(f0, "label"@, opt_text_data(it.label));
        lemma_opt_push_ok(f0, "label"@, opt_text_data(it.label));
        lemma_hash_text_ok(td_prefix(), it.default_td);
        lemma_opt_push_ok(f1, "default_td"@, opt_hash_data(td_prefix(), it.default_td));
        lemma_table_ok(item_data(it)->Table_0);
    }
    let e1 = opt_push(e0, "item"@, opt_item_data(c.item));
    lemma_opt_push_ok(e0, "item"@, opt_item_data(c.item));
    lemma_hash_text_ok(ci_prefix(), c.target);
    let e2 = opt_push(e1, "target"@, opt_hash_data(ci_prefix(), c.target));
    lemma_opt_push_ok(e1, "target"@, opt_hash_data(ci_prefix(), c.target));
    if let Some(v) = c.order {
        let items = hash_texts(ci_prefix(), v);
        crate::cbor::lemma_encodable_list(items);
        crate::canonical::lemma_has_float_list(items);
        assert forall|i: int| 0 <= i < items.len() implies crate::cbor::encodable(#[trigger] items[i]) by {
            lemma_hex_text_fits(ci_prefix(), v[i]);
        }
    }
    lemma_opt_push_ok(e2, "order"@, opt_order_data(c.order));
    lemma_table_ok(op_claim_data(c)->Table_0);
}

/// A text that is a dgid.
pub open spec fn dgid_at(f: Option<Data>) -> Option<Seq<u8>> {
    match f {
        Some(Data::Text(t)) => parse_dgid(t),
        _ => None,
    }
}

/// An integer that fits a `u64`.
pub open spec fn u64_at(f: Option<Data>) -> Option<u64> {
    match f {
        Some(Data::Integer(n)) => if 0 <= n < 0x1_0000_0000_0000_0000 {
            Some(n as u64)
        } else {
            None
        },
        _ => None,
    }
}

pub open spec fn opt_item_at(f: Option<Data>) -> Option<Option<ItemV>> {
    match f {
        None => Some(None),
        Some(Data::Null) => Some(None),
        Some(d) => match decode_item(d) {
            Some(i) => Some(Some(i)),
            None => None,
        },
    }
}

pub open spec fn decode_op_claim(d: Data) -> Option<OpClaimV> {
    let kind = match get(d, "kind"@) {
        Some(Data::Text(t)) => op_named(t),
        _ => None,
    };
    let collection = text_of(get(d, "collection"@));
    let owner = dgid_at(get(d, "owner"@));
    let seq = u64_at(get(d, "seq"@));
    let item = opt_item_at(get(d, "item"@));
    let target = opt_hash_at(get(d, "target"@), ci_prefix());
    let order = opt_hashes_at(get(d, "order"@), ci_prefix());
    if kind is Some && collection is Some && owner is Some && seq is Some && item is Some
        && target is Some && order is Some {
        Some(
            OpClaimV {
                kind: kind->0,
                collection: collection->0,
                owner: owner->0,
                seq: seq->0,
                item: item->0,
                target: target->0,
                order: order->0,
            },
        )
    } else {
        None
    }
}

/// The signing scope of an operation: the hash of its claim's canonical bytes.
pub open spec fn op_scope(c: OpClaimV) -> Seq<u8> {
    blake3_digest(canonical_bytes(op_claim_data(c)))
}

/// The integer `n` as an item.
pub fn integer(n: u64) -> (v: Value)
    ensures
        v@ == Data::Integer(n as int),
{
    Value::Integer(n as i128)
}

/// The dgid in the text field `name` of `v`.
pub fn dgid_field(v: &Value, name: &str) -> (r: Option<Dgid>)
    ensures
        match r {
            Some(d) => dgid_at(get(v@, name@)) == Some(d@),
            None => dgid_at(get(v@, name@)) is None,
        },
{
    match get_field(v, name) {
        Some(Value::Text(t)) => Dgid::parse(t.as_str()),
        _ => None,
    }
}

/// The `u64` in the integer field `name` of `v`.
pub fn u64_field(v: &Value, name: &str) -> (r: Option<u64>)
    ensures
        r == u64_at(get(v@, name@)),
{
    match get_field(v, name) {
        Some(Value::Integer(n)) => {
            if 0 <= *n && *n < 0x1_0000_0000_0000_0000i128 {
                Some(*n as u64)
            } else {
                None
            }
        },
        _ => None,
    }
}

/// The content identities behind `ci:` that `v` lists.
fn read_ci_list(v: &Value) -> (r: Option<Vec<CiHash>>)
    ensures
        match r {
            Some(cs) => hashes_at(Some(v@), ci_prefix()) == Some(ci_views(cs@)),
            None => hashes_at(Some(v@), ci_prefix()) is None,
        },
{
    let hs = read_hash_list(v, &CiHash::prefix())?;
    let mut out: Vec<CiHash> = Vec::new();
    let mut i: usize = 0;
    while i < hs.len()
        invariant
            i <= hs.len(),
            out.len() == i,
            forall|j: int| 0 <= j < i ==> (#[trigger] out@[j]).0@ == hs@[j]@,
        decreases hs.len() - i,
    {
        let c = CiHash::from_hash(hs[i]);
        let ghost before = out@;
        out.push(c);
        assert forall|j: int| 0 <= j < i + 1 implies (#[trigger] out@[j]).0@ == hs@[j]@ by {
            if j < i {
                assert(out@[j] == before[j]);
            }
        }
        i = i + 1;
    }
    assert(ci_views(out@) =~= hash_views(hs@));
    Some(out)
}

/// The content identities as texts behind `ci:`.
fn ci_list(cs: &Vec<CiHash>) -> (v: Value)
    ensures
        v@ == Data::Array(hash_texts(ci_prefix(), ci_views(cs@))),
{
    let mut hs: Vec<BlobHash> = Vec::new();
    let mut i: usize = 0;
    while i < cs.len()
        invariant
            i <= cs.len(),
            hs.len() == i,
            forall|j: int| 0 <= j < i ==> #[trigger] hs@[j]@ == cs@[j].0@,
        decreases cs.len() - i,
    {
        hs.push(cs[i].0);
        i = i + 1;
    }
    assert(hash_views(hs@) =~= ci_views(cs@));
    hash_list(&CiHash::prefix(), &hs)
}

impl OpClaim {
    pub fn to_value(&self) -> (v: Value)
        ensures
            v@ == op_claim_data(self@),
    {
        let mut e: Vec<(Value, Value)> = Vec::new();
        proof {
            assert(data_pairs(e@) =~= Seq::<(Data, Data)>::empty());
        }
        put(&mut e, "kind", text(self.kind.label()));
        put(&mut e, "collection", text(self.collection.as_str()));
        put(&mut e, "owner", Value::Text(self.owner.to_string()));
        put(&mut e, "seq", integer(self.seq));
        let item = match &self.item {
            Some(i) => Some(i.to_value()),
            None => None,
        };
        put_opt(&mut e, "item", item);
        let target = match self.target {
            Some(t) => Some(hash_text(&CiHash::prefix(), &t.0)),
            None => None,
        };
        put_opt(&mut e, "target", target);
        let order = match &self.order {
            Some(o) => Some(ci_list(o)),
            None => None,
        };
        put_opt(&mut e, "order", order);
        let ghost d = op_claim_data(self@);
        assert(data_pairs(e@) =~= d->Table_0);
        Value::Table(e)
    }

    pub fn from_value(v: &Value) -> (r: Option<Self>)
        ensures
            match r {
                Some(c) => decode_op_claim(v@) == Some(c@),
                None => decode_op_claim(v@) is None,
            },
    {
        let kind = match get_field(v, "kind") {
            Some(Value::Text(t)) => OpKind::parse(t.as_str()),
            _ => None,
        };
        let collection = text_field(v, "collection");
        let owner = dgid_field(v, "owner");
        let seq = u64_field(v, "seq");
        let item = match get_field(v, "item") {
            None => Some(None),
            Some(Value::Null) => Some(None),
            Some(x) => match Item::from_value(x) {
                Some(i) => Some(Some(i)),
                None => None,
            },
        };
        let target = opt_hash_field(v, "target", &CiHash::prefix());
        let order = match get_field(v, "order") {
            None => Some(None),
            Some(Value::Null) => Some(None),
            Some(x) => match read_ci_list(x) {
                Some(o) => Some(Some(o)),
                None => None,
            },
        };
        match (kind, collection, owner, seq, item, target, order) {
            (
                Some(kind),
                Some(collection),
                Some(owner),
                Some(seq),
                Some(item),
                Some(target),
                Some(order),
            ) => {
                let target = match target {
                    Some(h) => Some(CiHash::from_hash(h)),
                    None => None,
                };
                Some(OpClaim { kind, collection, owner, seq, item, target, order })
            },
            _ => None,
        }
    }

    /// The bytes the operation's signature covers.
    pub fn scope(&self) -> (r: Result<Vec<u8>, CanonError>)
        ensures
            match r {
                Ok(b) => canon_ok(op_claim_data(self@)) && b@ == op_scope(self@),
                Err(_) => !canon_ok(op_claim_data(self@)),
            },
            r is Ok,
    {
        text_fits_str(self.collection.as_str());
        match &self.item {
            Some(it) => {
                match &it.label {
                    Some(l) => text_fits_str(l.as_str()),
                    None => {},
                }
                proof {
                    crate::store::lemma_hash_len(it.ci.0);
                    if let Some(h) = it.default_td {
                        crate::store::lemma_hash_len(h.0);
                    }
                }
            },
            None => {},
        }
        match &self.order {
            Some(v) => {
                let n = v.len();
                proof {
                    assert forall|i: int| 0 <= i < v@.len() implies (#[trigger] ci_views(v@)[i]).len() == 32 by {
                        crate::store::lemma_hash_len(v@[i].0);
                    }
                }
            },
            None => {},
        }
        proof {
            crate::identity::lemma_dgid_len(self.owner);
            if let Some(h) = self.target {
                crate::store::lemma_hash_len(h.0);
            }
            lemma_op_claim_ok(self@);
        }
        let h = canonical::hash(&self.to_value())?;
        Ok(h.to_vec())
    }
}

/// A signed operation record.
#[derive(Debug, Clone, PartialEq)]
pub struct Op {
    pub record: String,
    pub claim: OpClaim,
    pub proof: Option<Proof>,
}

pub struct OpV {
    pub record: Seq<char>,
    pub claim: OpClaimV,
    pub proof: Option<ProofV>,
}

impl View for Op {
    type V = OpV;

    open spec fn view(&self) -> OpV {
        OpV { record: self.record@, claim: self.claim@, proof: proof_opt(self.proof) }
    }
}

pub open spec fn op_data(o: OpV) -> Data {
    Data::Table(
        opt_push(
            seq![
                (Data::Text("record"@), Data::Text(o.record)),
                (Data::Text("claim"@), op_claim_data(o.claim)),
            ],
            "proof"@,
            opt_proof_data(o.proof),
        ),
    )
}

pub open spec fn decode_op(d: Data) -> Option<OpV> {
    let record = text_of(get(d, "record"@));
    let claim = match get(d, "claim"@) {
        Some(c) => decode_op_claim(c),
        None => None,
    };
    let signed = match get(d, "proof"@) {
        None => Some(None),
        Some(Data::Null) => Some(None),
        Some(p) => match decode_proof(p) {
            Some(q) => Some(Some(q)),
            None => None,
        },
    };
    if record is Some && claim is Some && signed is Some {
        Some(OpV { record: record->0, claim: claim->0, proof: signed->0 })
    } else {
        None
    }
}

pub open spec fn read_op(bytes: Seq<u8>) -> Option<OpV> {
    match dec(bytes) {
        Some((d, _)) => match decode_op(d) {
            Some(o) => if o.record == OP_KIND@ {
                Some(o)
            } else {
                None
            },
            None => None,
        },
        None => None,
    }
}

/// The group whose valid signature an operation carries.
pub open spec fn op_signer(o: OpV) -> Option<Seq<u8>> {
    match o.proof {
        Some(p) => if canon_ok(op_claim_data(o.claim)) && ed25519_accepts(
            p.dgid,
            op_scope(o.claim),
            p.sig,
        ) {
            Some(p.dgid)
        } else {
            None
        },
        None => None,
    }
}

/// Whether an operation is validly signed by the owner it speaks for.
pub open spec fn op_owned(o: OpV) -> bool {
    op_signer(o) == Some(o.claim.owner)
}

/// The address of an operation: the hash of its canonical bytes.
pub open spec fn op_address(o: OpV) -> Option<Seq<u8>> {
    if canon_ok(op_data(o)) {
        Some(blake3_digest(canonical_bytes(op_data(o))))
    } else {
        None
    }
}

/// The signed form of `claim` by the secret `secret`.
pub open spec fn signed_op(claim: OpClaimV, secret: Seq<u8>) -> OpV {
    OpV {
        record: OP_KIND@,
        claim,
        proof: Some(
            ProofV {
                dgid: ed25519_public(secret),
                sig: ed25519_signature(secret, op_scope(claim)),
            },
        ),
    }
}

impl Op {
    /// An operation adding `item` to `collection`, signed by `identity` as owner.
    pub fn add(collection: &str, seq: u64, item: Item, identity: &Identity) -> (r: Result<
        Self,
        CanonError,
    >)
        ensures
            ({
                let c = OpClaimV {
                    kind: OpKind::Add,
                    collection: collection@,
                    owner: ed25519_public(identity.secret()),
                    seq,
                    item: Some(item@),
                    target: None,
                    order: None,
                };
                match r {
                    Ok(o) => o@ == signed_op(c, identity.secret()) && op_owned(o@),
                    Err(_) => !canon_ok(op_claim_data(c)),
                }
            }),
    {
        let claim = OpClaim {
            kind: OpKind::Add,
            collection: owned(collection),
            owner: identity.dgid(),
            seq,
            item: Some(item),
            target: None,
            order: None,
        };
        Op::sign(claim, identity)
    }

    /// An operation removing `target` from `collection`.
    pub fn remove(collection: &str, seq: u64, target: CiHash, identity: &Identity) -> (r: Result<
        Self,
        CanonError,
    >)
        ensures
            ({
                let c = OpClaimV {
                    kind: OpKind::Remove,
                    collection: collection@,
                    owner: ed25519_public(identity.secret()),
                    seq,
                    item: None,
                    target: Some(target.0@),
                    order: None,
                };
                match r {
                    Ok(o) => o@ == signed_op(c, identity.secret()) && op_owned(o@),
                    Err(_) => !canon_ok(op_claim_data(c)),
                }
            }),
    {
        let claim = OpClaim {
            kind: OpKind::Remove,
            collection: owned(collection),
            owner: identity.dgid(),
            seq,
            item: None,
            target: Some(target),
            order: None,
        };
        Op::sign(claim, identity)
    }

    /// An operation moving the listed identities to the front, in that order.
    pub fn reorder(collection: &str, seq: u64, order: Vec<CiHash>, identity: &Identity) -> (r:
        Result<Self, CanonError>)
        ensures
            ({
                let c = OpClaimV {
                    kind: OpKind::Reorder,
                    collection: collection@,
                    owner: ed25519_public(identity.secret()),
                    seq,
                    item: None,
                    target: None,
                    order: Some(ci_views(order@)),
                };
                match r {
                    Ok(o) => o@ == signed_op(c, identity.secret()) && op_owned(o@),
                    Err(_) => !canon_ok(op_claim_data(c)),
                }
            }),
    {
        let claim = OpClaim {
            kind: OpKind::Reorder,
            collection: owned(collection),
            owner: identity.dgid(),
            seq,
            item: None,
            target: None,
            order: Some(order),
        };
        Op::sign(claim, identity)
    }

    /// `claim` signed by `identity`.
    pub fn sign(claim: OpClaim, identity: &Identity) -> (r: Result<Self, CanonError>)
        ensures
            match r {
                Ok(o) => o@ == signed_op(claim@, identity.secret()) && op_signer(o@) == Some(
                    ed25519_public(identity.secret()),
                ),
                Err(_) => !canon_ok(op_claim_data(claim@)),
            },
            r is Ok,
    {
        let scope = claim.scope()?;
        let sig = identity.sign(scope.as_slice());
        let dgid = identity.dgid();
        Ok(Op { record: owned(OP_KIND), claim, proof: Some(Proof { dgid, sig }) })
    }

    /// The group that validly signed this operation.
    pub fn signer(&self) -> (r: Option<Dgid>)
        ensures
            match r {
                Some(d) => op_signer(self@) == Some(d@),
                None => op_signer(self@) is None,
            },
    {
        match &self.proof {
            None => None,
            Some(p) => match self.claim.scope() {
                Err(_) => None,
                Ok(scope) => if identity::verify(p.dgid, scope.as_slice(), p.sig) {
                    Some(p.dgid)
                } else {
                    None
                },
            },
        }
    }

    /// Whether the operation is validly signed by the owner it names.
    pub fn owned(&self) -> (r: bool)
        ensures
            r == op_owned(self@),
    {
        match self.signer() {
            Some(d) => d == self.claim.owner,
            None => false,
        }
    }

    pub fn to_value(&self) -> (v: Value)
        ensures
            v@ == op_data(self@),
    {
        let mut e: Vec<(Value, Value)> = Vec::new();
        proof {
            assert(data_pairs(e@) =~= Seq::<(Data, Data)>::empty());
        }
        put(&mut e, "record", text(self.record.as_str()));
        put(&mut e, "claim", self.claim.to_value());
        let signed = match &self.proof {
            Some(p) => Some(p.to_value()),
            None => None,
        };
        put_opt(&mut e, "proof", signed);
        let ghost d = op_data(self@);
        assert(data_pairs(e@) =~= d->Table_0);
        Value::Table(e)
    }

    pub fn from_value(v: &Value) -> (r: Option<Self>)
        ensures
            match r {
                Some(o) => decode_op(v@) == Some(o@),
                None => decode_op(v@) is None,
            },
    {
        let record = text_field(v, "record");
        let claim = match get_field(v, "claim") {
            Some(c) => OpClaim::from_value(c),
            None => None,
        };
        let signed = match get_field(v, "proof") {
            None => Some(None),
            Some(Value::Null) => Some(None),
            Some(p) => match Proof::from_value(p) {
                Some(q) => Some(Some(q)),
                None => None,
            },
        };
        match (record, claim, signed) {
            (Some(record), Some(claim), Some(signed)) => Some(Op { record, claim, proof: signed }),
            _ => None,
        }
    }

    pub fn encode(&self) -> (r: Result<Vec<u8>, CanonError>)
        ensures
            match r {
                Ok(b) => canon_ok(op_data(self@)) && b@ == canonical_bytes(op_data(self@)),
                Err(_) => !canon_ok(op_data(self@)),
            },
    {
        canonical::to_vec(&self.to_value())
    }

    /// The operation that `bytes` encode; a record of another type is refused.
    pub fn decode(bytes: &[u8]) -> (r: Result<Self, CanonError>)
        ensures
            match r {
                Ok(o) => read_op(bytes@) == Some(o@),
                Err(e) => read_op(bytes@) is None && e is Decode,
            },
    {
        let v = canonical::from_slice(bytes)?;
        match Op::from_value(&v) {
            None => Err(CanonError::Decode("not a collection-op map".to_string())),
            Some(o) => {
                if same_text(o.record.as_str(), OP_KIND) {
                    Ok(o)
                } else {
                    Err(CanonError::Decode("the record is of another type".to_string()))
                }
            },
        }
    }

    /// The hash of the operation's canonical bytes.
    pub fn address(&self) -> (r: Result<BlobHash, CanonError>)
        ensures
            match r {
                Ok(h) => op_address(self@) == Some(h@),
                Err(_) => op_address(self@) is None,
            },
    {
        canonical::hash(&self.to_value())
    }
}

} // verus!

verus! {

/// A published collection head: who owns it, the operation records that
/// build it, the attestations and other records it carries, and `refs`, the
/// sorted set of every hash the head needs replicated.
#[derive(Debug, Clone, PartialEq)]
pub struct Collection {
    pub record: String,
    pub kind: String,
    pub name: String,
    pub owner: Dgid,
    pub forked_from: Option<Dgid>,
    pub ops: Vec<BlobHash>,
    pub attestations: Vec<BlobHash>,
    pub records: Vec<BlobHash>,
    pub refs: Vec<BlobHash>,
}

pub struct CollectionV {
    pub record: Seq<char>,
    pub kind: Seq<char>,
    pub name: Seq<char>,
    pub owner: Seq<u8>,
    pub forked_from: Option<Seq<u8>>,
    pub ops: Seq<Seq<u8>>,
    pub attestations: Seq<Seq<u8>>,
    pub records: Seq<Seq<u8>>,
    pub refs: Seq<Seq<u8>>,
}

pub open spec fn dgid_opt(o: Option<Dgid>) -> Option<Seq<u8>> {
    match o {
        Some(d) => Some(d@),
        None => None,
    }
}

impl View for Collection {
    type V = CollectionV;

    open spec fn view(&self) -> CollectionV {
        CollectionV {
            record: self.record@,
            kind: self.kind@,
            name: self.name@,
            owner: self.owner@,
            forked_from: dgid_opt(self.forked_from),
            ops: hash_views(self.ops@),
            attestations: hash_views(self.attestations@),
            records: hash_views(self.records@),
            refs: hash_views(self.refs@),
        }
    }
}

/// Bare hashes as an array of texts.
pub open spec fn hashes_data(hs: Seq<Seq<u8>>) -> Data {
    Data::Array(hash_texts(Seq::empty(), hs))
}

pub open spec fn opt_dgid_data(o: Option<Seq<u8>>) -> Option<Data> {
    match o {
        Some(d) => Some(Data::Text(dgid_text(d))),
        None => None,
    }
}

/// The map a head is written as; an empty record type is left out, as a
/// legacy head was written.
pub open spec fn collection_data(c: CollectionV) -> Data {
    let start = opt_push(
        Seq::empty(),
        "record"@,
        if c.record.len() > 0 {
            Some(Data::Text(c.record))
        } else {
            None
        },
    );
    let named = start.push((Data::Text("kind"@), Data::Text(c.kind))).push(
        (Data::Text("name"@), Data::Text(c.name)),
    ).push((Data::Text("owner"@), Data::Text(dgid_text(c.owner))));
    Data::Table(
        opt_push(named, "forked_from"@, opt_dgid_data(c.forked_from)).push(
            (Data::Text("ops"@), hashes_data(c.ops)),
        ).push((Data::Text("attestations"@), hashes_data(c.attestations))).push(
            (Data::Text("records"@), hashes_data(c.records)),
        ).push((Data::Text("refs"@), hashes_data(c.refs))),
    )
}

/// A text that is empty when absent.
pub open spec fn default_text_at(f: Option<Data>) -> Option<Seq<char>> {
    match f {
        None => Some(Seq::empty()),
        Some(Data::Text(t)) => Some(t),
        _ => None,
    }
}

pub open spec fn opt_dgid_at(f: Option<Data>) -> Option<Option<Seq<u8>>> {
    match f {
        None => Some(None),
        Some(Data::Null) => Some(None),
        Some(Data::Text(t)) => match parse_dgid(t) {
            Some(d) => Some(Some(d)),
            None => None,
        },
        _ => None,
    }
}

pub open spec fn decode_collection(d: Data) -> Option<CollectionV> {
    let record = default_text_at(get(d, "record"@));
    let kind = text_of(get(d, "kind"@));
    let name = text_of(get(d, "name"@));
    let owner = dgid_at(get(d, "owner"@));
    let forked_from = opt_dgid_at(get(d, "forked_from"@));
    let ops = hashes_at(get(d, "ops"@), Seq::empty());
    let attestations = default_hashes_at(get(d, "attestations"@), Seq::empty());
    let records = default_hashes_at(get(d, "records"@), Seq::empty());
    let refs = hashes_at(get(d, "refs"@), Seq::empty());
    if record is Some && kind is Some && name is Some && owner is Some && forked_from is Some
        && ops is Some && attestations is Some && records is Some && refs is Some {
        Some(
            CollectionV {
                record: record->0,
                kind: kind->0,
                name: name->0,
                owner: owner->0,
                forked_from: forked_from->0,
                ops: ops->0,
                attestations: attestations->0,
                records: records->0,
                refs: refs->0,
            },
        )
    } else {
        None
    }
}

/// Whether a decoded head is a collection: a current one, or a legacy one
/// with no record type and the collection kind.
pub open spec fn is_head(c: CollectionV) -> bool {
    c.record == COLLECTION_RECORD@ || (c.record.len() == 0 && c.kind == COLLECTION_KIND@)
}

/// The head that `bytes` encode.
pub open spec fn read_collection(bytes: Seq<u8>) -> Option<CollectionV> {
    match dec(bytes) {
        Some((d, _)) => match decode_collection(d) {
            Some(c) => if is_head(c) {
                Some(c)
            } else {
                None
            },
            None => None,
        },
        None => None,
    }
}

/// The hashes a head must name: its operations, attestations and records, sorted, each once.
pub open spec fn head_refs(ops: Seq<Seq<u8>>, attestations: Seq<Seq<u8>>, records: Seq<Seq<u8>>) -> Seq<
    Seq<u8>,
> {
    sorted_set(ops.to_set() + attestations.to_set() + records.to_set())
}

/// Whether every hash that `theirs` names is named by `mine`.
pub open spec fn names_all(mine: Seq<Seq<u8>>, theirs: Seq<Seq<u8>>) -> bool {
    forall|x: Seq<u8>| theirs.contains(x) ==> mine.contains(x)
}

/// The dgid in the optional text field `name` of `v`.
fn opt_dgid_field(v: &Value, name: &str) -> (r: Option<Option<Dgid>>)
    ensures
        match r {
            Some(Some(d)) => opt_dgid_at(get(v@, name@)) == Some(Some(d@)),
            Some(None) => opt_dgid_at(get(v@, name@)) == Some(None::<Seq<u8>>),
            None => opt_dgid_at(get(v@, name@)) is None,
        },
{
    match get_field(v, name) {
        None => Some(None),
        Some(Value::Null) => Some(None),
        Some(Value::Text(t)) => match Dgid::parse(t.as_str()) {
            Some(d) => Some(Some(d)),
            None => None,
        },
        _ => None,
    }
}

fn hashes_field(v: &Value, name: &str, default_empty: bool) -> (r: Option<Vec<BlobHash>>)
    ensures
        match r {
            Some(hs) => (if default_empty {
                default_hashes_at(get(v@, name@), Seq::empty())
            } else {
                hashes_at(get(v@, name@), Seq::empty())
            }) == Some(hash_views(hs@)),
            None => (if default_empty {
                default_hashes_at(get(v@, name@), Seq::empty())
            } else {
                hashes_at(get(v@, name@), Seq::empty())
            }) is None,
        },
{
    let bare: Vec<char> = Vec::new();
    assert(bare@ =~= Seq::<char>::empty());
    match get_field(v, name) {
        None => if default_empty {
            let e: Vec<BlobHash> = Vec::new();
            assert(hash_views(e@) =~= Seq::<Seq<u8>>::empty());
            Some(e)
        } else {
            None
        },
        Some(x) => read_hash_list(x, &bare),
    }
}

/// The hashes as bare texts.
fn hashes_value(hs: &Vec<BlobHash>) -> (v: Value)
    ensures
        v@ == hashes_data(hash_views(hs@)),
{
    let bare: Vec<char> = Vec::new();
    assert(bare@ =~= Seq::<char>::empty());
    hash_list(&bare, hs)
}

/// A copy of a list of hashes.
pub fn copy_hashes(v: &Vec<BlobHash>) -> (c: Vec<BlobHash>)
    ensures
        hash_views(c@) == hash_views(v@),
{
    let mut c: Vec<BlobHash> = Vec::new();
    let mut i: usize = 0;
    while i < v.len()
        invariant
            i <= v.len(),
            c.len() == i,
            forall|j: int| 0 <= j < i ==> #[trigger] c@[j] == v@[j],
        decreases v.len() - i,
    {
        c.push(v[i]);
        i = i + 1;
    }
    assert(hash_views(c@) =~= hash_views(v@));
    c
}

impl Collection {
    /// An empty head of `kind` named `name`, owned by `owner`.
    pub fn new(kind: &str, name: &str, owner: Dgid) -> (c: Self)
        ensures
            c@ == (CollectionV {
                record: COLLECTION_RECORD@,
                kind: kind@,
                name: name@,
                owner: owner@,
                forked_from: None,
                ops: Seq::empty(),
                attestations: Seq::empty(),
                records: Seq::empty(),
                refs: Seq::empty(),
            }),
    {
        let c = Collection {
            record: owned(COLLECTION_RECORD),
            kind: owned(kind),
            name: owned(name),
            owner,
            forked_from: None,
            ops: Vec::new(),
            attestations: Vec::new(),
            records: Vec::new(),
            refs: Vec::new(),
        };
        assert(hash_views(c.ops@) =~= Seq::<Seq<u8>>::empty());
        assert(hash_views(c.refs@) =~= Seq::<Seq<u8>>::empty());
        c
    }

    /// This head with the operations and records replaced, and `refs` recomputed.
    pub fn with(self, ops: Vec<BlobHash>, records: Vec<BlobHash>) -> (c: Self)
        ensures
            c@ == (CollectionV {
                ops: hash_views(ops@),
                records: hash_views(records@),
                refs: head_refs(hash_views(ops@), self@.attestations, hash_views(records@)),
                ..self@
            }),
    {
        let mut c = self;
        c.ops = ops;
        c.records = records;
        c.reindex()
    }

    /// This head with the attestations replaced, and `refs` recomputed.
    pub fn attesting(self, attestations: Vec<BlobHash>) -> (c: Self)
        ensures
            c@ == (CollectionV {
                attestations: hash_views(attestations@),
                refs: head_refs(self@.ops, hash_views(attestations@), self@.records),
                ..self@
            }),
    {
        let mut c = self;
        c.attestations = attestations;
        c.reindex()
    }

    /// This head with `refs` set to the sorted set of every hash it carries.
    fn reindex(self) -> (c: Self)
        ensures
            c@ == (CollectionV {
                refs: head_refs(self@.ops, self@.attestations, self@.records),
                ..self@
            }),
    {
        let mut refs: Vec<BlobHash> = Vec::new();
        assert(hash_views(refs@) =~= Seq::<Seq<u8>>::empty());
        insert_all(&mut refs, &self.ops);
        insert_all(&mut refs, &self.attestations);
        insert_all(&mut refs, &self.records);
        proof {
            assert(Seq::<Seq<u8>>::empty().to_set() =~= Set::<Seq<u8>>::empty());
            assert(Set::<Seq<u8>>::empty() + self@.ops.to_set() =~= self@.ops.to_set());
            lemma_sorted_set(hash_views(refs@));
        }
        let mut c = self;
        c.refs = refs;
        c
    }

    /// Whether the head has no record type, as heads written before it had one.
    pub fn is_legacy(&self) -> (r: bool)
        ensures
            r == (self@.record.len() == 0),
    {
        no_chars(self.record.as_str())
    }

    pub fn to_value(&self) -> (v: Value)
        ensures
            v@ == collection_data(self@),
    {
        let mut e: Vec<(Value, Value)> = Vec::new();
        proof {
            assert(data_pairs(e@) =~= Seq::<(Data, Data)>::empty());
        }
        let record = if !no_chars(self.record.as_str()) {
            Some(text(self.record.as_str()))
        } else {
            None
        };
        put_opt(&mut e, "record", record);
        put(&mut e, "kind", text(self.kind.as_str()));
        put(&mut e, "name", text(self.name.as_str()));
        put(&mut e, "owner", Value::Text(self.owner.to_string()));
        let forked = match self.forked_from {
            Some(d) => Some(Value::Text(d.to_string())),
            None => None,
        };
        put_opt(&mut e, "forked_from", forked);
        put(&mut e, "ops", hashes_value(&self.ops));
        put(&mut e, "attestations", hashes_value(&self.attestations));
        put(&mut e, "records", hashes_value(&self.records));
        put(&mut e, "refs", hashes_value(&self.refs));
        let ghost d = collection_data(self@);
        assert(data_pairs(e@) =~= d->Table_0);
        Value::Table(e)
    }

    pub fn from_value(v: &Value) -> (r: Option<Self>)
        ensures
            match r {
                Some(c) => decode_collection(v@) == Some(c@),
                None => decode_collection(v@) is None,
            },
    {
        let record = match get_field(v, "record") {
            None => Some(String::new()),
            Some(Value::Text(t)) => Some(t.clone()),
            _ => None,
        };
        let kind = text_field(v, "kind");
        let name = text_field(v, "name");
        let owner = dgid_field(v, "owner");
        let forked_from = opt_dgid_field(v, "forked_from");
        let ops = hashes_field(v, "ops", false);
        let attestations = hashes_field(v, "attestations", true);
        let records = hashes_field(v, "records", true);
        let refs = hashes_field(v, "refs", false);
        match (record, kind, name, owner, forked_from, ops, attestations, records, refs) {
            (
                Some(record),
                Some(kind),
                Some(name),
                Some(owner),
                Some(forked_from),
                Some(ops),
                Some(attestations),
                Some(records),
                Some(refs),
            ) => Some(
                Collection { record, kind, name, owner, forked_from, ops, attestations, records, refs },
            ),
            _ => None,
        }
    }

    pub fn encode(&self) -> (r: Result<Vec<u8>, CanonError>)
        ensures
            match r {
                Ok(b) => canon_ok(collection_data(self@)) && b@ == canonical_bytes(
                    collection_data(self@),
                ),
                Err(_) => !canon_ok(collection_data(self@)),
            },
    {
        canonical::to_vec(&self.to_value())
    }

    /// The head that `bytes` encode; anything but a current or legacy collection is refused.
    pub fn decode(bytes: &[u8]) -> (r: Result<Self, CanonError>)
        ensures
            match r {
                Ok(c) => read_collection(bytes@) == Some(c@),
                Err(e) => read_collection(bytes@) is None && e is Decode,
            },
    {
        let v = canonical::from_slice(bytes)?;
        match Collection::from_value(&v) {
            None => Err(CanonError::Decode("not a collection map".to_string())),
            Some(c) => {
                let modern = same_text(c.record.as_str(), COLLECTION_RECORD);
                let legacy = no_chars(c.record.as_str()) && same_text(c.kind.as_str(), COLLECTION_KIND);
                if modern || legacy {
                    Ok(c)
                } else {
                    Err(CanonError::Decode("expected a collection record".to_string()))
                }
            },
        }
    }

    /// The `col:` address: the hash of the canonical bytes.
    pub fn address(&self) -> (r: Result<ColHash, CanonError>)
        ensures
            match r {
                Ok(a) => canon_ok(collection_data(self@)) && a.0@ == blake3_digest(
                    canonical_bytes(collection_data(self@)),
                ),
                Err(_) => !canon_ok(collection_data(self@)),
            },
    {
        let h = canonical::hash(&self.to_value())?;
        Ok(ColHash::from_hash(h))
    }

    /// Whether this head names every hash that `other` names.
    pub fn contains_all(&self, other: &Collection) -> (r: bool)
        ensures
            r == names_all(self@.refs, other@.refs),
    {
        let mut i: usize = 0;
        while i < other.refs.len()
            invariant
                i <= other.refs.len(),
                forall|j: int| 0 <= j < i ==> hash_views(self.refs@).contains(#[trigger] other.refs@[j]@),
            decreases other.refs.len() - i,
        {
            if !holds(&self.refs, &other.refs[i]) {
                assert(hash_views(other.refs@)[i as int] == other.refs@[i as int]@);
                return false;
            }
            i = i + 1;
        }
        assert forall|x: Seq<u8>| hash_views(other.refs@).contains(x) implies hash_views(
            self.refs@,
        ).contains(x) by {
            let k = choose|k: int| 0 <= k < hash_views(other.refs@).len() && hash_views(other.refs@)[k] == x;
            assert(other.refs@[k]@ == x);
        }
        true
    }
}

} // verus!

verus! {

/// What merging an incoming head did to the local ref.
#[derive(Debug, Clone, Copy, PartialEq)]
pub enum Merged {
    Unchanged,
    Adopted(BlobHash),
    Union(BlobHash),
    Replaced(BlobHash),
}

impl Merged {
    /// The head the ref points at after the merge, when it moved.
    pub fn head(&self) -> (r: Option<BlobHash>)
        ensures
            match *self {
                Merged::Unchanged => r is None,
                Merged::Adopted(h) => r == Some(h),
                Merged::Union(h) => r == Some(h),
                Merged::Replaced(h) => r == Some(h),
            },
    {
        match self {
            Merged::Unchanged => None,
            Merged::Adopted(h) => Some(*h),
            Merged::Union(h) => Some(*h),
            Merged::Replaced(h) => Some(*h),
        }
    }
}

/// What to do with the local ref when a head arrives.
#[derive(Debug)]
pub enum MergePlan {
    /// The local head already has everything: leave the ref.
    Keep,
    /// The incoming head has everything the local one has: point the ref at it.
    Adopt,
    /// The heads are not of one collection, or the local one is unreadable:
    /// point the ref at the incoming head.
    Replace,
    /// Concurrent heads of one owner: publish this union head.
    Publish(Collection),
}

pub enum PlanV {
    Keep,
    Adopt,
    Replace,
    Publish(CollectionV),
}

impl View for MergePlan {
    type V = PlanV;

    open spec fn view(&self) -> PlanV {
        match self {
            MergePlan::Keep => PlanV::Keep,
            MergePlan::Adopt => PlanV::Adopt,
            MergePlan::Replace => PlanV::Replace,
            MergePlan::Publish(c) => PlanV::Publish(c@),
        }
    }
}

/// The head that unites two concurrent heads of one collection: the
/// operations, records and attestations of both, the local ones first.
pub open spec fn union_head(local: CollectionV, incoming: CollectionV) -> CollectionV {
    let ops = union_spec(local.ops, incoming.ops);
    let records = union_spec(local.records, incoming.records);
    let attestations = union_spec(local.attestations, incoming.attestations);
    CollectionV {
        record: COLLECTION_RECORD@,
        kind: incoming.kind,
        name: local.name,
        owner: local.owner,
        forked_from: if local.forked_from is Some {
            local.forked_from
        } else {
            incoming.forked_from
        },
        ops,
        attestations,
        records,
        refs: head_refs(ops, attestations, records),
    }
}

/// How a merge goes, from the incoming head (if it decodes), its hash, the
/// local ref (if any) and the local head (if it could be read and decoded).
pub open spec fn merge_decision(
    incoming: Option<CollectionV>,
    incoming_hash: Seq<u8>,
    local_hash: Option<Seq<u8>>,
    local: Option<CollectionV>,
) -> PlanV {
    match incoming {
        None => PlanV::Replace,
        Some(inc) => match local_hash {
            None => PlanV::Replace,
            Some(lh) => if lh == incoming_hash {
                PlanV::Keep
            } else {
                match local {
                    None => PlanV::Replace,
                    Some(loc) => if loc.owner != inc.owner || loc.name != inc.name {
                        PlanV::Replace
                    } else if names_all(loc.refs, inc.refs) {
                        PlanV::Keep
                    } else if names_all(inc.refs, loc.refs) {
                        PlanV::Adopt
                    } else {
                        PlanV::Publish(union_head(loc, inc))
                    },
                }
            },
        },
    }
}

pub open spec fn hash_opt(o: Option<BlobHash>) -> Option<Seq<u8>> {
    match o {
        Some(h) => Some(h@),
        None => None,
    }
}

/// Decides a merge of the head `incoming_bytes` (hashing to `incoming_hash`)
/// into the ref that points at `local_hash`, whose bytes are `local_bytes`
/// when the store has them.
pub fn plan_merge(
    incoming_bytes: &[u8],
    incoming_hash: BlobHash,
    local_hash: Option<BlobHash>,
    local_bytes: Option<&[u8]>,
) -> (p: MergePlan)
    ensures
        p@ == merge_decision(
            read_collection(incoming_bytes@),
            incoming_hash@,
            hash_opt(local_hash),
            match local_bytes {
                Some(b) => read_collection(b@),
                None => None,
            },
        ),
{
    let incoming = match Collection::decode(incoming_bytes) {
        Ok(c) => c,
        Err(_) => return MergePlan::Replace,
    };
    let lh = match local_hash {
        Some(h) => h,
        None => return MergePlan::Replace,
    };
    if lh == incoming_hash {
        return MergePlan::Keep;
    }
    let local = match local_bytes {
        Some(b) => match Collection::decode(b) {
            Ok(c) => c,
            Err(_) => return MergePlan::Replace,
        },
        None => return MergePlan::Replace,
    };
    if !(local.owner == incoming.owner) || !same_text(local.name.as_str(), incoming.name.as_str()) {
        return MergePlan::Replace;
    }
    if local.contains_all(&incoming) {
        return MergePlan::Keep;
    }
    if incoming.contains_all(&local) {
        return MergePlan::Adopt;
    }
    let ops = union(&local.ops, &incoming.ops);
    let records = union(&local.records, &incoming.records);
    let attestations = union(&local.attestations, &incoming.attestations);
    let mut head = Collection::new(incoming.kind.as_str(), local.name.as_str(), local.owner).with(
        ops,
        records,
    ).attesting(attestations);
    head.forked_from = match local.forked_from {
        Some(d) => Some(d),
        None => incoming.forked_from,
    };
    MergePlan::Publish(head)
}

} // verus!

verus! {

/// An operation in the fold: its sequence number, its address and its claim.
pub type Entry = (u64, Seq<u8>, OpClaimV);

/// Whether `op` counts for the collection of `owner`: it names that owner, the
/// owner signed it, and it has an address.
pub open spec fn counts(owner: Seq<u8>, op: OpV) -> bool {
    op.claim.owner == owner && op_owned(op) && op_address(op) is Some
}

/// The counted operations of `ops`, in the order they arrived.
pub open spec fn entries_of(owner: Seq<u8>, ops: Seq<OpV>) -> Seq<Entry>
    decreases ops.len(),
{
    if ops.len() == 0 {
        Seq::empty()
    } else {
        let e = entries_of(owner, ops.drop_last());
        let op = ops.last();
        if counts(owner, op) {
            e.push((op.claim.seq, op_address(op)->0, op.claim))
        } else {
            e
        }
    }
}

/// Whether `a` sorts at or before `b`: by sequence number, then by address.
pub open spec fn entry_le(a: Entry, b: Entry) -> bool {
    a.0 < b.0 || (a.0 == b.0 && lex_le(a.1, b.1))
}

/// `e` placed after every entry of `t` that sorts at or before it.
pub open spec fn insert_entry(e: Entry, t: Seq<Entry>) -> Seq<Entry>
    decreases t.len(),
{
    if t.len() == 0 {
        seq![e]
    } else if entry_le(t.last(), e) {
        t.push(e)
    } else {
        insert_entry(e, t.drop_last()).push(t.last())
    }
}

/// The stable sort of `s` by sequence number and address.
pub open spec fn sort_entries(s: Seq<Entry>) -> Seq<Entry>
    decreases s.len(),
{
    if s.len() == 0 {
        Seq::empty()
    } else {
        insert_entry(s.last(), sort_entries(s.drop_last()))
    }
}

/// `s` without each entry whose address repeats the one before it.
pub open spec fn dedup_entries(s: Seq<Entry>) -> Seq<Entry>
    decreases s.len(),
{
    if s.len() == 0 {
        Seq::empty()
    } else {
        let d = dedup_entries(s.drop_last());
        if s.len() >= 2 && s[s.len() - 2].1 == s.last().1 {
            d
        } else {
            d.push(s.last())
        }
    }
}

/// The position of the first item of `items` with content identity `ci`.
pub open spec fn first_ci(items: Seq<ItemV>, ci: Seq<u8>) -> Option<int>
    decreases items.len(),
{
    if items.len() == 0 {
        None
    } else if items[0].ci == ci {
        Some(0)
    } else {
        match first_ci(items.drop_first(), ci) {
            Some(p) => Some(p + 1),
            None => None,
        }
    }
}

/// `items` without every item with content identity `ci`.
pub open spec fn without_ci(items: Seq<ItemV>, ci: Seq<u8>) -> Seq<ItemV>
    decreases items.len(),
{
    if items.len() == 0 {
        Seq::empty()
    } else {
        let r = without_ci(items.drop_last(), ci);
        if items.last().ci == ci {
            r
        } else {
            r.push(items.last())
        }
    }
}

/// The items moved to the front so far, and the items left, after the
/// identities of `order` were taken in turn.
pub open spec fn reorder_run(items: Seq<ItemV>, order: Seq<Seq<u8>>) -> (Seq<ItemV>, Seq<ItemV>)
    decreases order.len(),
{
    if order.len() == 0 {
        (Seq::empty(), items)
    } else {
        let (moved, rest) = reorder_run(items, order.drop_last());
        match first_ci(rest, order.last()) {
            Some(p) => (moved.push(rest[p]), rest.remove(p)),
            None => (moved, rest),
        }
    }
}

/// The identities of `order` moved to the front in that order; the rest after them.
pub open spec fn reorder(items: Seq<ItemV>, order: Seq<Seq<u8>>) -> Seq<ItemV> {
    let (moved, rest) = reorder_run(items, order);
    moved + rest
}

/// One operation applied to the items.
pub open spec fn apply_op(items: Seq<ItemV>, c: OpClaimV) -> Seq<ItemV> {
    match c.kind {
        OpKind::Add => match c.item {
            Some(it) => match first_ci(items, it.ci) {
                Some(p) => items.update(p, it),
                None => items.push(it),
            },
            None => items,
        },
        OpKind::Remove => match c.target {
            Some(t) => without_ci(items, t),
            None => items,
        },
        OpKind::Reorder => match c.order {
            Some(o) => reorder(items, o),
            None => items,
        },
    }
}

/// The entries applied in turn to an empty collection.
pub open spec fn apply_all(es: Seq<Entry>) -> Seq<ItemV>
    decreases es.len(),
{
    if es.len() == 0 {
        Seq::empty()
    } else {
        apply_op(apply_all(es.drop_last()), es.last().2)
    }
}

/// The items of the collection of `owner` that the operations `ops` build:
/// the counted operations sorted by sequence number and address, each
/// address once, applied in that order.
pub open spec fn fold_spec(owner: Seq<u8>, ops: Seq<OpV>) -> Seq<ItemV> {
    apply_all(dedup_entries(sort_entries(entries_of(owner, ops))))
}

pub open spec fn op_views(ops: Seq<Op>) -> Seq<OpV> {
    Seq::new(ops.len(), |i: int| ops[i]@)
}

pub open spec fn item_views(items: Seq<Item>) -> Seq<ItemV> {
    Seq::new(items.len(), |i: int| items[i]@)
}

} // verus!

verus! {

/// An entry as the fold holds it: sequence number, address, and the index of its operation.
pub open spec fn entry_views(es: Seq<(u64, BlobHash, usize)>, ops: Seq<Op>) -> Seq<Entry> {
    Seq::new(es.len(), |i: int| (es[i].0, es[i].1@, ops[es[i].2 as int]@.claim))
}

pub open spec fn indices_ok(es: Seq<(u64, BlobHash, usize)>, n: int) -> bool {
    forall|i: int| 0 <= i < es.len() ==> (#[trigger] es[i]).2 < n
}

/// The counted operations of `ops`, in the order they arrived.
fn counted_entries(owner: &Dgid, ops: &[Op]) -> (es: Vec<(u64, BlobHash, usize)>)
    ensures
        indices_ok(es@, ops@.len() as int),
        entry_views(es@, ops@) == entries_of(owner@, op_views(ops@)),
{
    let ghost all = op_views(ops@);
    let mut es: Vec<(u64, BlobHash, usize)> = Vec::new();
    let mut i: usize = 0;
    assert(entry_views(es@, ops@) =~= entries_of(owner@, all.take(0)));
    while i < ops.len()
        invariant
            i <= ops.len(),
            all == op_views(ops@),
            indices_ok(es@, ops@.len() as int),
            entry_views(es@, ops@) == entries_of(owner@, all.take(i as int)),
        decreases ops.len() - i,
    {
        let ghost before = entry_views(es@, ops@);
        assert(all.take(i + 1).drop_last() =~= all.take(i as int));
        assert(all.take(i + 1).last() == ops@[i as int]@);
        if ops[i].claim.owner == *owner && ops[i].owned() {
            match ops[i].address() {
                Ok(h) => {
                    es.push((ops[i].claim.seq, h, i));
                    assert(entry_views(es@, ops@) =~= before.push(
                        (ops@[i as int]@.claim.seq, h@, ops@[i as int]@.claim),
                    ));
                },
                Err(_) => {},
            }
        }
        i = i + 1;
    }
    assert(all.take(i as int) =~= all);
    es
}

/// Whether `a` sorts at or before `b`.
fn entry_le_exec(a: &(u64, BlobHash, usize), b: &(u64, BlobHash, usize)) -> (r: bool)
    ensures
        r == (a.0 < b.0 || (a.0 == b.0 && lex_le(a.1@, b.1@))),
{
    a.0 < b.0 || (a.0 == b.0 && bytes_le(a.1.as_bytes(), b.1.as_bytes()))
}

proof fn lemma_insert_entry_at(e: Entry, t: Seq<Entry>, j: int)
    requires
        0 <= j <= t.len(),
        forall|m: int| j <= m < t.len() ==> !entry_le(#[trigger] t[m], e),
        j == 0 || entry_le(t[j - 1], e),
    ensures
        insert_entry(e, t) == t.insert(j, e),
    decreases t.len(),
{
    if t.len() == 0 {
        assert(t.insert(j, e) =~= seq![e]);
    } else if entry_le(t.last(), e) {
        assert(j == t.len());
        assert(t.insert(j, e) =~= t.push(e));
    } else {
        let u = t.drop_last();
        lemma_insert_entry_at(e, u, j);
        assert(u.insert(j, e).push(t.last()) =~= t.insert(j, e));
    }
}

/// The entries sorted by sequence number and address, stably.
fn sort_by_key(es: &Vec<(u64, BlobHash, usize)>, ops: &[Op]) -> (sorted: Vec<(u64, BlobHash, usize)>)
    requires
        indices_ok(es@, ops@.len() as int),
    ensures
        indices_ok(sorted@, ops@.len() as int),
        entry_views(sorted@, ops@) == sort_entries(entry_views(es@, ops@)),
{
    let ghost s = entry_views(es@, ops@);
    let mut sorted: Vec<(u64, BlobHash, usize)> = Vec::new();
    let mut i: usize = 0;
    assert(entry_views(sorted@, ops@) =~= sort_entries(s.take(0)));
    while i < es.len()
        invariant
            i <= es.len(),
            s == entry_views(es@, ops@),
            indices_ok(es@, ops@.len() as int),
            indices_ok(sorted@, ops@.len() as int),
            entry_views(sorted@, ops@) == sort_entries(s.take(i as int)),
        decreases es.len() - i,
    {
        let e = es[i];
        let ghost t = entry_views(sorted@, ops@);
        let ghost ev = s[i as int];
        assert(ev == (e.0, e.1@, ops@[e.2 as int]@.claim));
        let mut j: usize = sorted.len();
        while j > 0 && !entry_le_exec(&sorted[j - 1], &e)
            invariant
                j <= sorted.len(),
                t == entry_views(sorted@, ops@),
                ev == (e.0, e.1@, ops@[e.2 as int]@.claim),
                forall|m: int| j <= m < t.len() ==> !entry_le(#[trigger] t[m], ev),
            decreases j,
        {
            j = j - 1;
        }
        proof {
            lemma_insert_entry_at(ev, t, j as int);
            assert(s.take(i + 1).drop_last() =~= s.take(i as int));
        }
        sorted.insert(j, e);
        assert(entry_views(sorted@, ops@) =~= t.insert(j as int, ev));
        i = i + 1;
    }
    assert(s.take(i as int) =~= s);
    sorted
}

/// The entries without each one whose address repeats the one before it.
fn dedup_by_address(es: &Vec<(u64, BlobHash, usize)>, ops: &[Op]) -> (kept: Vec<(u64, BlobHash, usize)>)
    requires
        indices_ok(es@, ops@.len() as int),
    ensures
        indices_ok(kept@, ops@.len() as int),
        entry_views(kept@, ops@) == dedup_entries(entry_views(es@, ops@)),
{
    let ghost s = entry_views(es@, ops@);
    let mut kept: Vec<(u64, BlobHash, usize)> = Vec::new();
    let mut i: usize = 0;
    assert(entry_views(kept@, ops@) =~= dedup_entries(s.take(0)));
    while i < es.len()
        invariant
            i <= es.len(),
            s == entry_views(es@, ops@),
            indices_ok(es@, ops@.len() as int),
            indices_ok(kept@, ops@.len() as int),
            entry_views(kept@, ops@) == dedup_entries(s.take(i as int)),
        decreases es.len() - i,
    {
        let ghost before = entry_views(kept@, ops@);
        let ghost u = s.take(i + 1);
        assert(u.drop_last() =~= s.take(i as int));
        assert(u.last() == s[i as int]);
        if i > 0 {
            assert(u[u.len() - 2] == s[i - 1]);
        }
        if i == 0 || !(es[i].1 == es[i - 1].1) {
            kept.push(es[i]);
            assert(entry_views(kept@, ops@) =~= before.push(s[i as int]));
        }
        i = i + 1;
    }
    assert(s.take(i as int) =~= s);
    kept
}

pub proof fn lemma_first_ci(items: Seq<ItemV>, ci: Seq<u8>)
    ensures
        match first_ci(items, ci) {
            Some(p) => 0 <= p < items.len() && items[p].ci == ci && forall|j: int|
                0 <= j < p ==> (#[trigger] items[j]).ci != ci,
            None => forall|j: int| 0 <= j < items.len() ==> (#[trigger] items[j]).ci != ci,
        },
    decreases items.len(),
{
    if items.len() > 0 {
        lemma_first_ci(items.drop_first(), ci);
        if items[0].ci != ci {
            match first_ci(items.drop_first(), ci) {
                Some(p) => {
                    assert forall|j: int| 0 <= j < p + 1 implies (#[trigger] items[j]).ci != ci by {
                        if j > 0 {
                            assert(items[j] == items.drop_first()[j - 1]);
                        }
                    }
                },
                None => {
                    assert forall|j: int| 0 <= j < items.len() implies (#[trigger] items[j]).ci
                        != ci by {
                        if j > 0 {
                            assert(items[j] == items.drop_first()[j - 1]);
                        }
                    }
                },
            }
        }
    }
}

/// The position of the first item with content identity `ci`.
pub(crate) fn find_ci(items: &Vec<Item>, ci: &CiHash) -> (r: Option<usize>)
    ensures
        match r {
            Some(p) => first_ci(item_views(items@), ci.0@) == Some(p as int),
            None => first_ci(item_views(items@), ci.0@) is None,
        },
{
    let ghost v = item_views(items@);
    proof {
        lemma_first_ci(v, ci.0@);
    }
    let mut i: usize = 0;
    while i < items.len()
        invariant
            i <= items.len(),
            v == item_views(items@),
            forall|j: int| 0 <= j < i ==> (#[trigger] v[j]).ci != ci.0@,
        decreases items.len() - i,
    {
        assert(v[i as int] == items@[i as int]@);
        if items[i].ci.0 == ci.0 {
            proof {
                lemma_first_ci(v, ci.0@);
                assert(v[i as int].ci == ci.0@);
                match first_ci(v, ci.0@) {
                    Some(p) => {
                        if p < i {
                            assert(v[p].ci != ci.0@);
                        }
                    },
                    None => {
                        assert(v[i as int].ci != ci.0@);
                    },
                }
            }
            return Some(i);
        }
        i = i + 1;
    }
    proof {
        lemma_first_ci(v, ci.0@);
        match first_ci(v, ci.0@) {
            Some(p) => {
                assert(v[p].ci != ci.0@);
            },
            None => {},
        }
    }
    None
}

/// The items without every item with content identity `target`.
pub(crate) fn drop_ci(items: &Vec<Item>, target: &CiHash) -> (out: Vec<Item>)
    ensures
        item_views(out@) == without_ci(item_views(items@), target.0@),
{
    let ghost v = item_views(items@);
    let mut out: Vec<Item> = Vec::new();
    let mut i: usize = 0;
    assert(item_views(out@) =~= without_ci(v.take(0), target.0@));
    while i < items.len()
        invariant
            i <= items.len(),
            v == item_views(items@),
            item_views(out@) == without_ci(v.take(i as int), target.0@),
        decreases items.len() - i,
    {
        let ghost before = item_views(out@);
        assert(v.take(i + 1).drop_last() =~= v.take(i as int));
        assert(v.take(i + 1).last() == items@[i as int]@);
        if !(items[i].ci.0 == target.0) {
            let c = items[i].copy();
            out.push(c);
            assert(item_views(out@) =~= before.push(items@[i as int]@));
        }
        i = i + 1;
    }
    assert(v.take(i as int) =~= v);
    out
}

/// A copy of the items.
pub(crate) fn copy_items(items: &Vec<Item>) -> (out: Vec<Item>)
    ensures
        item_views(out@) == item_views(items@),
{
    let mut out: Vec<Item> = Vec::new();
    let mut i: usize = 0;
    while i < items.len()
        invariant
            i <= items.len(),
            out.len() == i,
            forall|j: int| 0 <= j < i ==> (#[trigger] out@[j])@ == items@[j]@,
        decreases items.len() - i,
    {
        let c = items[i].copy();
        out.push(c);
        i = i + 1;
    }
    assert(item_views(out@) =~= item_views(items@));
    out
}

/// The identities of `order` moved to the front, in that order.
fn reorder_items(items: &Vec<Item>, order: &Vec<CiHash>) -> (out: Vec<Item>)
    ensures
        item_views(out@) == reorder(item_views(items@), ci_views(order@)),
{
    let ghost iv = item_views(items@);
    let ghost ov = ci_views(order@);
    let mut moved: Vec<Item> = Vec::new();
    let mut rest = copy_items(items);
    let mut k: usize = 0;
    assert(item_views(moved@) =~= Seq::<ItemV>::empty());
    assert(ov.take(0) =~= Seq::<Seq<u8>>::empty());
    while k < order.len()
        invariant
            k <= order.len(),
            iv == item_views(items@),
            ov == ci_views(order@),
            (item_views(moved@), item_views(rest@)) == reorder_run(iv, ov.take(k as int)),
        decreases order.len() - k,
    {
        let ghost rv = item_views(rest@);
        let ghost mv = item_views(moved@);
        assert(ov.take(k + 1).drop_last() =~= ov.take(k as int));
        assert(ov.take(k + 1).last() == order@[k as int].0@);
        match find_ci(&rest, &order[k]) {
            Some(p) => {
                proof {
                    lemma_first_ci(rv, order@[k as int].0@);
                }
                let it = rest.remove(p);
                moved.push(it);
                assert(item_views(moved@) =~= mv.push(rv[p as int]));
                assert(item_views(rest@) =~= rv.remove(p as int));
            },
            None => {},
        }
        k = k + 1;
    }
    assert(ov.take(k as int) =~= ov);
    let ghost mv = item_views(moved@);
    let ghost rv = item_views(rest@);
    let mut out = moved;
    let mut i: usize = 0;
    while i < rest.len()
        invariant
            i <= rest.len(),
            rv == item_views(rest@),
            item_views(out@) == mv + rv.take(i as int),
        decreases rest.len() - i,
    {
        let ghost o = item_views(out@);
        let c = rest[i].copy();
        assert(rv[i as int] == rest@[i as int]@);
        out.push(c);
        assert(item_views(out@) =~= o.push(c@));
        assert(rv.take(i + 1) =~= rv.take(i as int).push(rv[i as int]));
        i = i + 1;
        assert(item_views(out@) =~= mv + rv.take(i as int));
    }
    assert(rv.take(i as int) =~= rv);
    out
}

/// Applies one operation's claim to the items.
fn apply_claim(items: &mut Vec<Item>, c: &OpClaim)
    ensures
        item_views(final(items)@) == apply_op(item_views(old(items)@), c@),
{
    match c.kind {
        OpKind::Add => match &c.item {
            Some(it) => match find_ci(items, &it.ci) {
                Some(p) => {
                    let ghost before = item_views(items@);
                    proof {
                        lemma_first_ci(before, it.ci.0@);
                    }
                    items.set(p, it.copy());
                    assert(item_views(items@) =~= before.update(p as int, it@));
                },
                None => {
                    let ghost before = item_views(items@);
                    items.push(it.copy());
                    assert(item_views(items@) =~= before.push(it@));
                },
            },
            None => {},
        },
        OpKind::Remove => match &c.target {
            Some(t) => {
                let out = drop_ci(items, t);
                *items = out;
            },
            None => {},
        },
        OpKind::Reorder => match &c.order {
            Some(o) => {
                let out = reorder_items(items, o);
                *items = out;
            },
            None => {},
        },
    }
}

/// The items of the collection of `owner` that `ops` build: the operations
/// the owner validly signed, sorted by sequence number and address, each
/// address once, applied in turn.
pub fn fold(owner: Dgid, ops: &[Op]) -> (items: Vec<Item>)
    ensures
        item_views(items@) == fold_spec(owner@, op_views(ops@)),
{
    let es = counted_entries(&owner, ops);
    let sorted = sort_by_key(&es, ops);
    let kept = dedup_by_address(&sorted, ops);
    let ghost ks = entry_views(kept@, ops@);
    let mut items: Vec<Item> = Vec::new();
    let mut i: usize = 0;
    assert(item_views(items@) =~= apply_all(ks.take(0)));
    while i < kept.len()
        invariant
            i <= kept.len(),
            ks == entry_views(kept@, ops@),
            indices_ok(kept@, ops@.len() as int),
            item_views(items@) == apply_all(ks.take(i as int)),
        decreases kept.len() - i,
    {
        let idx = kept[i].2;
        assert(ks.take(i + 1).drop_last() =~= ks.take(i as int));
        assert(ks.take(i + 1).last().2 == ops@[idx as int]@.claim);
        apply_claim(&mut items, &ops[idx].claim);
        i = i + 1;
    }
    assert(ks.take(i as int) =~= ks);
    items
}

} // verus!

verus! {

/// Whether a head's `refs` is the sorted set of what it carries, as every
/// head built by `with` and `attesting` is.
pub open spec fn indexed(c: CollectionV) -> bool {
    c.refs == head_refs(c.ops, c.attestations, c.records)
}

/// A head's `refs` lists every operation, attestation and record it carries,
/// each once, in increasing order, and nothing else.
pub proof fn law_head_refs(ops: Seq<Seq<u8>>, attestations: Seq<Seq<u8>>, records: Seq<Seq<u8>>)
    ensures
        increasing(head_refs(ops, attestations, records)),
        forall|x: Seq<u8>|
            #[trigger] head_refs(ops, attestations, records).contains(x) <==> (ops.contains(x)
                || attestations.contains(x) || records.contains(x)),
{
    lemma_sorted_union(ops, attestations, records);
}

/// The union of two concurrent heads names every hash that either names.
pub proof fn law_union_names_both(local: CollectionV, incoming: CollectionV)
    requires
        indexed(local),
        indexed(incoming),
    ensures
        indexed(union_head(local, incoming)),
        names_all(union_head(local, incoming).refs, local.refs),
        names_all(union_head(local, incoming).refs, incoming.refs),
{
    let u = union_head(local, incoming);
    law_head_refs(local.ops, local.attestations, local.records);
    law_head_refs(incoming.ops, incoming.attestations, incoming.records);
    law_head_refs(u.ops, u.attestations, u.records);
    lemma_union_members(local.ops, incoming.ops);
    lemma_union_members(local.attestations, incoming.attestations);
    lemma_union_members(local.records, incoming.records);
    assert forall|x: Seq<u8>| local.refs.contains(x) implies u.refs.contains(x) by {
        if local.ops.contains(x) {
            assert(u.ops.to_set().contains(x));
        } else if local.attestations.contains(x) {
            assert(u.attestations.to_set().contains(x));
        } else {
            assert(u.records.to_set().contains(x));
        }
    }
    assert forall|x: Seq<u8>| incoming.refs.contains(x) implies u.refs.contains(x) by {
        if incoming.ops.contains(x) {
            assert(u.ops.to_set().contains(x));
        } else if incoming.attestations.contains(x) {
            assert(u.attestations.to_set().contains(x));
        } else {
            assert(u.records.to_set().contains(x));
        }
    }
}

/// A head that arrives at a ref already pointing at it changes nothing.
pub proof fn law_merge_same_head(incoming: CollectionV, hash: Seq<u8>, local: Option<CollectionV>)
    ensures
        merge_decision(Some(incoming), hash, Some(hash), local) == PlanV::Keep,
{
}

} // verus!

verus! {

/// Hashes written as texts behind a prefix read back, and are their own canonical form.
pub proof fn lemma_hash_list_round_trip(prefix: Seq<char>, v: Seq<Seq<u8>>)
    requires
        prefix.len() == 0 || !crate::text::is_space(prefix[0]),
        forall|i: int| 0 <= i < v.len() ==> (#[trigger] v[i]).len() == 32,
    ensures
        canon(Data::Array(hash_texts(prefix, v))) == Data::Array(hash_texts(prefix, v)),
        hashes_at(Some(Data::Array(hash_texts(prefix, v))), prefix) == Some(v),
{
    let items = hash_texts(prefix, v);
    canonical::lemma_canon_list(items);
    assert(canon_list(items) =~= items);
    assert forall|i: int| 0 <= i < items.len() implies (#[trigger] hash_at(Some(items[i]), prefix))
        == Some(v[i]) by {
        assert(items[i] == Data::Text(prefixed_text(prefix, v[i])));
        if prefix.len() == 0 {
            assert(prefix =~= Seq::<char>::empty());
            crate::address::lemma_bare_round_trip(v[i]);
        } else {
            crate::address::lemma_prefixed_round_trip(prefix, v[i]);
        }
    }
    assert(Seq::new(items.len(), |i: int| hash_at(Some(items[i]), prefix)->0) =~= v);
}

pub open spec fn item_wf(i: ItemV) -> bool {
    i.ci.len() == 32 && (i.default_td matches Some(h) ==> h.len() == 32)
}

/// An item read back from its canonical map is the item.
#[verifier::spinoff_prover]
#[verifier::rlimit(40)]
pub proof fn law_item_round_trip(i: ItemV)
    requires
        item_wf(i),
    ensures
        decode_item(canon(item_data(i))) == Some(i),
{
    reveal_strlit("ci");
    reveal_strlit("label");
    reveal_strlit("default_td");
    let a = (Data::Text("ci"@), Data::Text(prefixed_text(ci_prefix(), i.ci)));
    let base = seq![a];
    assert(base =~= Seq::<(Data, Data)>::empty().push(a));
    lemma_field_push(Seq::<(Data, Data)>::empty(), a.0, a.1);
    assert(text_keys(base));
    let s1 = opt_push(base, "label"@, opt_text_data(i.label));
    let s2 = opt_push(s1, "default_td"@, opt_hash_data(td_prefix(), i.default_td));
    assert("label"@[0] != "ci"@[0]);
    lemma_opt_push(base, "label"@, opt_text_data(i.label));
    assert("default_td"@[0] != "ci"@[0] && "default_td"@[0] != "label"@[0]);
    lemma_opt_push(s1, "default_td"@, opt_hash_data(td_prefix(), i.default_td));
    lemma_get_canon(s2, "ci"@);
    lemma_get_canon(s2, "label"@);
    lemma_get_canon(s2, "default_td"@);
    crate::address::lemma_addresses_round_trip(i.ci);
    lemma_opt_hash_round_trip(td_prefix(), i.default_td);
}

pub open spec fn op_claim_wf(c: OpClaimV) -> bool {
    &&& c.owner.len() == 32
    &&& (c.item matches Some(i) ==> item_wf(i))
    &&& (c.target matches Some(h) ==> h.len() == 32)
    &&& (c.order matches Some(o) ==> forall|k: int| 0 <= k < o.len() ==> (#[trigger] o[k]).len() == 32)
}

proof fn lemma_op_kind_names(k: OpKind)
    ensures
        op_named(op_label(k)) == Some(k),
{
    reveal_strlit("add");
    reveal_strlit("remove");
    reveal_strlit("reorder");
    assert("add"@.len() != "remove"@.len());
    assert("remove"@.len() != "reorder"@.len());
}

/// An operation's claim read back from its canonical map is the claim.
#[verifier::spinoff_prover]
#[verifier::rlimit(40)]
pub proof fn law_op_claim_round_trip(c: OpClaimV)
    requires
        op_claim_wf(c),
    ensures
        decode_op_claim(canon(op_claim_data(c))) == Some(c),
{
    reveal_strlit("kind");
    reveal_strlit("collection");
    reveal_strlit("owner");
    reveal_strlit("seq");
    reveal_strlit("item");
    reveal_strlit("target");
    reveal_strlit("order");
    let a = (Data::Text("kind"@), Data::Text(op_label(c.kind)));
    let b = (Data::Text("collection"@), Data::Text(c.collection));
    let o = (Data::Text("owner"@), Data::Text(dgid_text(c.owner)));
    let q = (Data::Text("seq"@), Data::Integer(c.seq as int));
    let e0 = Seq::<(Data, Data)>::empty();
    let base = seq![a, b, o, q];
    assert(base =~= e0.push(a).push(b).push(o).push(q));
    lemma_field_push(e0, a.0, a.1);
    lemma_field_push(e0.push(a), b.0, b.1);
    lemma_field_push(e0.push(a).push(b), o.0, o.1);
    lemma_field_push(e0.push(a).push(b).push(o), q.0, q.1);
    assert("kind"@[0] != "collection"@[0] && "kind"@[0] != "owner"@[0] && "kind"@[0] != "seq"@[0]);
    assert("collection"@[0] != "owner"@[0] && "collection"@[0] != "seq"@[0]);
    assert("owner"@[0] != "seq"@[0]);
    assert(text_keys(base)) by {
        assert forall|i: int, j: int| 0 <= i < j < base.len() implies (#[trigger] base[i]).0 != (
        #[trigger] base[j]).0 by {
            assert(base[i].0->Text_0[0] != base[j].0->Text_0[0]);
        }
    }
    let s1 = opt_push(base, "item"@, opt_item_data(c.item));
    let s2 = opt_push(s1, "target"@, opt_hash_data(ci_prefix(), c.target));
    let s3 = opt_push(s2, "order"@, opt_order_data(c.order));
    assert("item"@[0] != "kind"@[0] && "item"@[0] != "collection"@[0] && "item"@[0] != "owner"@[0]
        && "item"@[0] != "seq"@[0]);
    lemma_opt_push(base, "item"@, opt_item_data(c.item));
    assert("target"@[0] != "kind"@[0] && "target"@[0] != "collection"@[0] && "target"@[0]
        != "owner"@[0] && "target"@[0] != "seq"@[0] && "target"@[0] != "item"@[0]);
    lemma_opt_push(s1, "target"@, opt_hash_data(ci_prefix(), c.target));
    assert("order"@[1] != "owner"@[1]);
    assert("order"@[0] != "kind"@[0] && "order"@[0] != "collection"@[0] && "order"@ != "owner"@
        && "order"@[0] != "seq"@[0] && "order"@[0] != "item"@[0] && "order"@[0] != "target"@[0]);
    lemma_opt_push(s2, "order"@, opt_order_data(c.order));
    lemma_get_canon(s3, "kind"@);
    lemma_get_canon(s3, "collection"@);
    lemma_get_canon(s3, "owner"@);
    lemma_get_canon(s3, "seq"@);
    lemma_get_canon(s3, "item"@);
    lemma_get_canon(s3, "target"@);
    lemma_get_canon(s3, "order"@);
    lemma_op_kind_names(c.kind);
    crate::identity::lemma_dgid_round_trip(c.owner);
    if let Some(i) = c.item {
        law_item_round_trip(i);
    }
    lemma_opt_hash_round_trip(ci_prefix(), c.target);
    if let Some(v) = c.order {
        lemma_hash_list_round_trip(ci_prefix(), v);
    }
}

pub open spec fn op_wf(o: OpV) -> bool {
    op_claim_wf(o.claim) && (o.proof matches Some(p) ==> proof_wf(p))
}

/// An operation read back from its canonical encoding is the operation, and
/// so keeps its signer and its place in the fold.
#[verifier::spinoff_prover]
#[verifier::rlimit(40)]
pub proof fn law_op_round_trip(o: OpV)
    requires
        op_wf(o),
        canon_ok(op_data(o)),
        o.record == OP_KIND@,
    ensures
        read_op(canonical_bytes(op_data(o))) == Some(o),
{
    reveal_strlit("record");
    reveal_strlit("claim");
    reveal_strlit("proof");
    let d = op_data(o);
    canonical::lemma_round_trip(d);
    let x = (Data::Text("record"@), Data::Text(o.record));
    let y = (Data::Text("claim"@), op_claim_data(o.claim));
    let base = seq![x, y];
    assert(base =~= Seq::<(Data, Data)>::empty().push(x).push(y));
    lemma_field_push(Seq::<(Data, Data)>::empty(), x.0, x.1);
    lemma_field_push(Seq::<(Data, Data)>::empty().push(x), y.0, y.1);
    assert(text_keys(base)) by {
        assert("record"@[0] != "claim"@[0]);
    }
    assert("proof"@[0] != "record"@[0] && "proof"@[0] != "claim"@[0]);
    lemma_opt_push(base, "proof"@, opt_proof_data(o.proof));
    let s = opt_push(base, "proof"@, opt_proof_data(o.proof));
    lemma_get_canon(s, "record"@);
    lemma_get_canon(s, "claim"@);
    lemma_get_canon(s, "proof"@);
    law_op_claim_round_trip(o.claim);
    if let Some(p) = o.proof {
        law_proof_round_trip(p);
    }
}

} // verus!

verus! {

pub open spec fn all_hashes(v: Seq<Seq<u8>>) -> bool {
    forall|k: int| 0 <= k < v.len() ==> (#[trigger] v[k]).len() == 32
}

pub open spec fn collection_wf(c: CollectionV) -> bool {
    &&& c.owner.len() == 32
    &&& (c.forked_from matches Some(d) ==> d.len() == 32)
    &&& all_hashes(c.ops)
    &&& all_hashes(c.attestations)
    &&& all_hashes(c.records)
    &&& all_hashes(c.refs)
}

/// A head read back from its canonical encoding is the head, a legacy head
/// without a record type included.
#[verifier::spinoff_prover]
#[verifier::rlimit(40)]
pub proof fn law_collection_round_trip(c: CollectionV)
    requires
        collection_wf(c),
        canon_ok(collection_data(c)),
        is_head(c),
    ensures
        read_collection(canonical_bytes(collection_data(c))) == Some(c),
{
    reveal_strlit("record");
    reveal_strlit("kind");
    reveal_strlit("name");
    reveal_strlit("owner");
    reveal_strlit("forked_from");
    reveal_strlit("ops");
    reveal_strlit("attestations");
    reveal_strlit("records");
    reveal_strlit("refs");
    let d = collection_data(c);
    canonical::lemma_round_trip(d);
    let e0 = Seq::<(Data, Data)>::empty();
    let rec = if c.record.len() > 0 {
        Some(Data::Text(c.record))
    } else {
        None
    };
    assert(text_keys(e0));
    lemma_opt_push(e0, "record"@, rec);
    let s0 = opt_push(e0, "record"@, rec);
    assert("kind"@[0] != "record"@[0]);
    lemma_field_push(s0, Data::Text("kind"@), Data::Text(c.kind));
    lemma_text_keys_push(s0, "kind"@, Data::Text(c.kind));
    let s1 = s0.push((Data::Text("kind"@), Data::Text(c.kind)));
    assert("name"@[0] != "record"@[0] && "name"@[0] != "kind"@[0]);
    lemma_field_push(s1, Data::Text("name"@), Data::Text(c.name));
    lemma_text_keys_push(s1, "name"@, Data::Text(c.name));
    let s2 = s1.push((Data::Text("name"@), Data::Text(c.name)));
    assert("owner"@[0] != "record"@[0] && "owner"@[0] != "kind"@[0] && "owner"@[0] != "name"@[0]);
    lemma_field_push(s2, Data::Text("owner"@), Data::Text(dgid_text(c.owner)));
    lemma_text_keys_push(s2, "owner"@, Data::Text(dgid_text(c.owner)));
    let s3 = s2.push((Data::Text("owner"@), Data::Text(dgid_text(c.owner))));
    assert("forked_from"@[0] != "record"@[0] && "forked_from"@[0] != "kind"@[0]
        && "forked_from"@[0] != "name"@[0] && "forked_from"@[0] != "owner"@[0]);
    lemma_opt_push(s3, "forked_from"@, opt_dgid_data(c.forked_from));
    let s4 = opt_push(s3, "forked_from"@, opt_dgid_data(c.forked_from));
    assert("ops"@[1] != "owner"@[1]);
    assert("ops"@[0] != "record"@[0] && "ops"@[0] != "kind"@[0] && "ops"@[0] != "name"@[0]
        && "ops"@ != "owner"@ && "ops"@[0] != "forked_from"@[0]);
    lemma_field_push(s4, Data::Text("ops"@), hashes_data(c.ops));
    lemma_text_keys_push(s4, "ops"@, hashes_data(c.ops));
    let s5 = s4.push((Data::Text("ops"@), hashes_data(c.ops)));
    assert("attestations"@[0] != "record"@[0] && "attestations"@[0] != "kind"@[0]
        && "attestations"@[0] != "name"@[0] && "attestations"@[0] != "owner"@[0]
        && "attestations"@[0] != "forked_from"@[0] && "attestations"@[0] != "ops"@[0]);
    lemma_field_push(s5, Data::Text("attestations"@), hashes_data(c.attestations));
    lemma_text_keys_push(s5, "attestations"@, hashes_data(c.attestations));
    let s6 = s5.push((Data::Text("attestations"@), hashes_data(c.attestations)));
    assert("records"@.len() != "record"@.len());
    assert("records"@ != "record"@ && "records"@[0] != "kind"@[0] && "records"@[0] != "name"@[0]
        && "records"@[0] != "owner"@[0] && "records"@[0] != "forked_from"@[0] && "records"@[0]
        != "ops"@[0] && "records"@[0] != "attestations"@[0]);
    lemma_field_push(s6, Data::Text("records"@), hashes_data(c.records));
    lemma_text_keys_push(s6, "records"@, hashes_data(c.records));
    let s7 = s6.push((Data::Text("records"@), hashes_data(c.records)));
    assert("refs"@[2] != "record"@[2] && "refs"@[2] != "records"@[2]);
    assert("refs"@ != "record"@ && "refs"@[0] != "kind"@[0] && "refs"@[0] != "name"@[0]
        && "refs"@[0] != "owner"@[0] && "refs"@[0] != "forked_from"@[0] && "refs"@[0] != "ops"@[0]
        && "refs"@[0] != "attestations"@[0] && "refs"@ != "records"@);
    lemma_field_push(s7, Data::Text("refs"@), hashes_data(c.refs));
    lemma_text_keys_push(s7, "refs"@, hashes_data(c.refs));
    let s8 = s7.push((Data::Text("refs"@), hashes_data(c.refs)));
    assert(d == Data::Table(s8));
    lemma_get_canon(s8, "record"@);
    lemma_get_canon(s8, "kind"@);
    lemma_get_canon(s8, "name"@);
    lemma_get_canon(s8, "owner"@);
    lemma_get_canon(s8, "forked_from"@);
    lemma_get_canon(s8, "ops"@);
    lemma_get_canon(s8, "attestations"@);
    lemma_get_canon(s8, "records"@);
    lemma_get_canon(s8, "refs"@);
    crate::identity::lemma_dgid_round_trip(c.owner);
    if let Some(f) = c.forked_from {
        crate::identity::lemma_dgid_round_trip(f);
    }
    lemma_hash_list_round_trip(Seq::empty(), c.ops);
    lemma_hash_list_round_trip(Seq::empty(), c.attestations);
    lemma_hash_list_round_trip(Seq::empty(), c.records);
    lemma_hash_list_round_trip(Seq::empty(), c.refs);
    if c.record.len() == 0 {
        assert(c.record =~= Seq::<char>::empty());
    }
}

} // verus!

verus! {

/// Operations that do not count for the owner (another owner's, or not
/// validly signed by the owner they name) change nothing in the fold.
pub proof fn law_foreign_ops_never_fold(owner: Seq<u8>, ops: Seq<OpV>, others: Seq<OpV>)
    requires
        forall|i: int| 0 <= i < others.len() ==> !counts(owner, #[trigger] others[i]),
    ensures
        fold_spec(owner, ops + others) == fold_spec(owner, ops),
    decreases others.len(),
{
    if others.len() > 0 {
        let rest = others.drop_last();
        assert forall|i: int| 0 <= i < rest.len() implies !counts(owner, #[trigger] rest[i]) by {
            assert(rest[i] == others[i]);
        }
        law_foreign_ops_never_fold(owner, ops, rest);
        assert((ops + others).drop_last() =~= ops + rest);
        assert((ops + others).last() == others[others.len() - 1]);
        assert(entries_of(owner, ops + others) == entries_of(owner, ops + rest));
    } else {
        assert(ops + others =~= ops);
    }
}

/// The complaint about a name that no ref can have.
pub open spec fn unusable_ref(name: Seq<char>) -> Seq<char> {
    crate::ops::debug_quoted(name) + " is not a usable ref name"@
}

/// Points the ref `name` at `hash` in the ref table `refs`.
pub fn set_ref(refs: &mut Vec<(String, BlobHash)>, name: &str, hash: BlobHash)
    requires
        crate::assoc::unique_keys(crate::refs::listed_views(old(refs)@)),
    ensures
        crate::assoc::unique_keys(crate::refs::listed_views(final(refs)@)),
        crate::assoc::as_map(crate::refs::listed_views(final(refs)@)) == crate::assoc::as_map(
            crate::refs::listed_views(old(refs)@),
        ).insert(name@, hash@),
{
    let ghost e = crate::refs::listed_views(refs@);
    let mut i: usize = 0;
    while i < refs.len()
        invariant
            i <= refs.len(),
            *refs == *old(refs),
            e == crate::refs::listed_views(refs@),
            crate::assoc::unique_keys(e),
            forall|j: int| 0 <= j < i ==> e[j].0 != name@,
        decreases refs.len() - i,
    {
        if same_text(refs[i].0.as_str(), name) {
            refs.set(i, (owned(name), hash));
            proof {
                assert(crate::refs::listed_views(refs@) =~= e.update(i as int, (e[i as int].0, hash@)));
                crate::assoc::lemma_as_map_update(e, i as int, hash@);
            }
            return;
        }
        i = i + 1;
    }
    refs.push((owned(name), hash));
    proof {
        crate::assoc::lemma_as_map(e);
        if crate::assoc::as_map(e).contains_key(name@) {
            let j = choose|j: int| 0 <= j < e.len() && e[j].0 == name@;
            assert(e[j].0 != name@);
        }
        assert(crate::refs::listed_views(refs@) =~= e.push((name@, hash@)));
        crate::assoc::lemma_as_map_push(e, name@, hash@);
    }
}

/// Stores the canonical bytes of `head` and points the ref named after it at
/// them. A head with no canonical form is refused before anything is stored;
/// a name no ref can have is refused once the head is stored.
pub fn publish(
    store: &mut crate::store::MemBlobs,
    refs: &mut Vec<(String, BlobHash)>,
    head: &Collection,
) -> (r: Result<BlobHash, String>)
    requires
        crate::assoc::unique_keys(crate::refs::listed_views(old(refs)@)),
    ensures
        crate::assoc::unique_keys(crate::refs::listed_views(final(refs)@)),
        r is Err <==> !canon_ok(collection_data(head@)) || !crate::refs::name_ok(head@.name),
        !canon_ok(collection_data(head@)) ==> *final(store) == *old(store) && final(refs)@ == old(refs)@,
        canon_ok(collection_data(head@)) ==> ({
            let h = blake3_digest(canonical_bytes(collection_data(head@)));
            &&& final(store).held(h) == match old(store).held(h) {
                Some(b) => Some(b),
                None => Some(canonical_bytes(collection_data(head@))),
            }
            &&& forall|k: Seq<u8>| k != h ==> #[trigger] final(store).held(k) == old(store).held(k)
            &&& match r {
                Ok(got) => got@ == h && crate::assoc::as_map(crate::refs::listed_views(final(refs)@))
                    == crate::assoc::as_map(crate::refs::listed_views(old(refs)@)).insert(head@.name, h),
                Err(e) => e@ == unusable_ref(head@.name) && final(refs)@ == old(refs)@,
            }
        }),
{
    let bytes = match head.encode() {
        Ok(b) => b,
        Err(e) => return Err(e.to_string()),
    };
    let hash = match store.put(bytes.as_slice()) {
        Ok(h) => h,
        Err(_) => return Err(owned("the store refused the head")),
    };
    if !crate::refs::valid_name(head.name.as_str()) {
        return Err(crate::text::concat(crate::ops::quoted(head.name.as_str()).as_str(), " is not a usable ref name"));
    }
    set_ref(refs, head.name.as_str(), hash);
    Ok(hash)
}

/// The map a ref table sets: each name to its head.
pub open spec fn ref_map(refs: Seq<(String, BlobHash)>) -> Map<Seq<char>, Seq<u8>> {
    crate::assoc::as_map(crate::refs::listed_views(refs))
}

/// The head of the ref `name` in the ref table `refs`.
pub fn read_ref(refs: &Vec<(String, BlobHash)>, name: &str) -> (r: Option<BlobHash>)
    requires
        crate::assoc::unique_keys(crate::refs::listed_views(refs@)),
    ensures
        match r {
            Some(h) => ref_map(refs@).contains_key(name@) && ref_map(refs@)[name@] == h@,
            None => !ref_map(refs@).contains_key(name@),
        },
{
    let ghost e = crate::refs::listed_views(refs@);
    proof {
        crate::assoc::lemma_as_map(e);
    }
    let mut i: usize = 0;
    while i < refs.len()
        invariant
            i <= refs.len(),
            e == crate::refs::listed_views(refs@),
            crate::assoc::unique_keys(e),
            forall|j: int| 0 <= j < i ==> e[j].0 != name@,
        decreases refs.len() - i,
    {
        if same_text(refs[i].0.as_str(), name) {
            proof {
                crate::assoc::lemma_as_map(e);
                assert(e[i as int].0 == name@);
            }
            return Some(refs[i].1);
        }
        i = i + 1;
    }
    proof {
        crate::assoc::lemma_as_map(e);
        if crate::assoc::as_map(e).contains_key(name@) {
            let j = choose|j: int| 0 <= j < e.len() && e[j].0 == name@;
            assert(e[j].0 != name@);
        }
    }
    None
}

/// Points the ref `name` at `hash`, if `name` is a usable ref name.
pub fn write_ref(refs: &mut Vec<(String, BlobHash)>, name: &str, hash: BlobHash) -> (r: Result<(), String>)
    requires
        crate::assoc::unique_keys(crate::refs::listed_views(old(refs)@)),
    ensures
        crate::assoc::unique_keys(crate::refs::listed_views(final(refs)@)),
        match r {
            Ok(()) => crate::refs::name_ok(name@) && ref_map(final(refs)@) == ref_map(old(refs)@).insert(name@, hash@),
            Err(e) => !crate::refs::name_ok(name@) && e@ == unusable_ref(name@) && final(refs)@ == old(refs)@,
        },
{
    if !crate::refs::valid_name(name) {
        return Err(crate::text::concat(crate::ops::quoted(name).as_str(), " is not a usable ref name"));
    }
    set_ref(refs, name, hash);
    Ok(())
}

/// What merging the head stored under `incoming` into the ref `name` does,
/// as `merge_decision` plans it over the heads as the store holds them.
pub open spec fn merge_plan_of(
    store: crate::store::MemBlobs,
    refs: Seq<(String, BlobHash)>,
    name: Seq<char>,
    incoming: Seq<u8>,
    incoming_bytes: Seq<u8>,
) -> PlanV {
    let lh = if ref_map(refs).contains_key(name) {
        Some(ref_map(refs)[name])
    } else {
        None
    };
    let local = match lh {
        Some(h) => match store.held(h) {
            Some(b) => read_collection(b),
            None => None,
        },
        None => None,
    };
    merge_decision(read_collection(incoming_bytes), incoming, lh, local)
}

/// Merges the head stored under `incoming` into the ref `name`: keeps the
/// local head when it has everything, adopts the incoming one when it has
/// everything the local one has, replaces a head of another collection or an
/// unreadable one, and publishes the union of two concurrent heads of one owner.
pub fn merge(
    store: &mut crate::store::MemBlobs,
    refs: &mut Vec<(String, BlobHash)>,
    name: &str,
    incoming: BlobHash,
) -> (r: Result<Merged, String>)
    requires
        crate::assoc::unique_keys(crate::refs::listed_views(old(refs)@)),
    ensures
        crate::assoc::unique_keys(crate::refs::listed_views(final(refs)@)),
        old(store).held(incoming@) is None ==> r is Err && *final(store) == *old(store) && final(refs)@ == old(refs)@,
        old(store).held(incoming@) matches Some(ib) ==> match merge_plan_of(*old(store), old(refs)@, name@, incoming@, ib) {
            PlanV::Keep => r == Ok::<Merged, String>(Merged::Unchanged) && *final(store) == *old(store) && final(refs)@
                == old(refs)@,
            PlanV::Adopt => *final(store) == *old(store) && if crate::refs::name_ok(name@) {
                r == Ok::<Merged, String>(Merged::Adopted(incoming)) && ref_map(final(refs)@) == ref_map(old(refs)@).insert(
                    name@,
                    incoming@,
                )
            } else {
                r is Err && final(refs)@ == old(refs)@
            },
            PlanV::Replace => *final(store) == *old(store) && if crate::refs::name_ok(name@) {
                r == Ok::<Merged, String>(Merged::Replaced(incoming)) && ref_map(final(refs)@) == ref_map(old(refs)@).insert(
                    name@,
                    incoming@,
                )
            } else {
                r is Err && final(refs)@ == old(refs)@
            },
            PlanV::Publish(c) => {
                &&& (r is Err <==> !canon_ok(collection_data(c)) || !crate::refs::name_ok(c.name))
                &&& !canon_ok(collection_data(c)) ==> *final(store) == *old(store) && final(refs)@ == old(refs)@
                &&& canon_ok(collection_data(c)) ==> ({
                    let h = blake3_digest(canonical_bytes(collection_data(c)));
                    &&& final(store).held(h) == match old(store).held(h) {
                        Some(b) => Some(b),
                        None => Some(canonical_bytes(collection_data(c))),
                    }
                    &&& forall|k: Seq<u8>| k != h ==> #[trigger] final(store).held(k) == old(store).held(k)
                })
                &&& r matches Ok(m) ==> m matches Merged::Union(h) && h@ == blake3_digest(
                    canonical_bytes(collection_data(c)),
                ) && ref_map(final(refs)@) == ref_map(old(refs)@).insert(c.name, h@)
            },
        },
{
    let incoming_bytes = match store.get(incoming) {
        Ok(b) => b,
        Err(_) => {
            let head = crate::text::concat("incoming head ", incoming.to_hex().as_str());
            let tail = crate::text::concat(": blob ", incoming.to_hex().as_str());
            let tail = crate::text::concat(tail.as_str(), " not in store");
            return Err(crate::text::concat(head.as_str(), tail.as_str()));
        },
    };
    let local = read_ref(refs, name);
    let local_bytes: Option<Vec<u8>> = match local {
        Some(h) => match store.get(h) {
            Ok(b) => Some(b),
            Err(_) => None,
        },
        None => None,
    };
    let plan = plan_merge(
        incoming_bytes.as_slice(),
        incoming,
        local,
        match &local_bytes {
            Some(b) => Some(b.as_slice()),
            None => None,
        },
    );
    match plan {
        MergePlan::Keep => Ok(Merged::Unchanged),
        MergePlan::Adopt => match write_ref(refs, name, incoming) {
            Ok(()) => Ok(Merged::Adopted(incoming)),
            Err(e) => Err(e),
        },
        MergePlan::Replace => match write_ref(refs, name, incoming) {
            Ok(()) => Ok(Merged::Replaced(incoming)),
            Err(e) => Err(e),
        },
        MergePlan::Publish(head) => match publish(store, refs, &head) {
            Ok(h) => Ok(Merged::Union(h)),
            Err(e) => Err(e),
        },
    }
}

/// How a merge decides, for an incoming head that decodes: a ref that
/// already points at it keeps it; a head of another owner or another
/// collection, or an unreadable local head, is replaced; a local head that
/// already names everything the incoming one names is kept; an incoming
/// head that names everything the local one names, and more, is adopted;
/// otherwise the two are published as one head of the local owner and name.
pub proof fn law_merge_decides_by_owner_name_and_contents(
    incoming: CollectionV,
    incoming_hash: Seq<u8>,
    local_hash: Seq<u8>,
    local: CollectionV,
)
    ensures
        merge_decision(Some(incoming), incoming_hash, Some(incoming_hash), Some(local)) == PlanV::Keep,
        merge_decision(Some(incoming), incoming_hash, None, Some(local)) == PlanV::Replace,
        local_hash != incoming_hash ==> merge_decision(Some(incoming), incoming_hash, Some(local_hash), None)
            == PlanV::Replace,
        local_hash != incoming_hash && (local.owner != incoming.owner || local.name != incoming.name) ==> merge_decision(
            Some(incoming),
            incoming_hash,
            Some(local_hash),
            Some(local),
        ) == PlanV::Replace,
        ({
            let same = local_hash != incoming_hash && local.owner == incoming.owner && local.name == incoming.name;
            let has_theirs = forall|x: Seq<u8>| #[trigger] incoming.refs.contains(x) ==> local.refs.contains(x);
            let has_mine = forall|x: Seq<u8>| #[trigger] local.refs.contains(x) ==> incoming.refs.contains(x);
            let d = merge_decision(Some(incoming), incoming_hash, Some(local_hash), Some(local));
            &&& same && has_theirs ==> d == PlanV::Keep
            &&& same && !has_theirs && has_mine ==> d == PlanV::Adopt
            &&& same && !has_theirs && !has_mine ==> (d matches PlanV::Publish(u) && u.owner == local.owner && u.name
                == local.name)
        }),
{
}

/// Whether `x` stands before `y` in `items`.
pub open spec fn comes_before(items: Seq<ItemV>, x: ItemV, y: ItemV) -> bool {
    exists|a: int, b: int| 0 <= a < b < items.len() && items[a] == x && items[b] == y
}

/// Whether `order` names `x` before it first names `y`.
pub open spec fn named_before(order: Seq<Seq<u8>>, x: Seq<u8>, y: Seq<u8>) -> bool {
    exists|p: int| 0 <= p < order.len() && order[p] == x && forall|q: int| 0 <= q <= p ==> order[q] != y
}

/// What taking the identities of `order` in turn leaves: `moved` holds
/// items named by `order`, each identity before the later ones, and `rest`
/// the items not named, in the order `items` had them; every item is in one
/// of the two.
pub open spec fn reorder_split_ok(items: Seq<ItemV>, order: Seq<Seq<u8>>, moved: Seq<ItemV>, rest: Seq<ItemV>) -> bool {
    &&& moved.len() + rest.len() == items.len()
    &&& forall|i: int| 0 <= i < moved.len() ==> order.contains((#[trigger] moved[i]).ci) && items.contains(moved[i])
    &&& forall|i: int, j: int| 0 <= i < j < moved.len() ==> named_before(order, (#[trigger] moved[i]).ci, (#[trigger] moved[j]).ci)
    &&& forall|i: int| 0 <= i < rest.len() ==> !order.contains((#[trigger] rest[i]).ci) && items.contains(rest[i])
    &&& forall|a: int, b: int| 0 <= a < b < rest.len() ==> (#[trigger] rest[a]).ci != (#[trigger] rest[b]).ci
    &&& forall|i: int, j: int| 0 <= i < j < rest.len() ==> comes_before(items, #[trigger] rest[i], #[trigger] rest[j])
    &&& forall|x: ItemV| #[trigger] items.contains(x) ==> moved.contains(x) || rest.contains(x)
}

proof fn lemma_reorder_run_split(items: Seq<ItemV>, order: Seq<Seq<u8>>)
    requires
        forall|a: int, b: int| 0 <= a < b < items.len() ==> (#[trigger] items[a]).ci != (#[trigger] items[b]).ci,
    ensures
        reorder_split_ok(items, order, reorder_run(items, order).0, reorder_run(items, order).1),
    decreases order.len(),
{
    if order.len() == 0 {
        let rest = items;
        assert(reorder_run(items, order) == (Seq::<ItemV>::empty(), rest));
        assert forall|i: int, j: int| 0 <= i < j < rest.len() implies comes_before(items, #[trigger] rest[i], #[trigger] rest[j]) by {
            assert(items[i] == rest[i] && items[j] == rest[j]);
        }
        assert forall|i: int| 0 <= i < items.len() implies !order.contains((#[trigger] items[i]).ci) && items.contains(
            items[i],
        ) by {}
    } else {
        let o = order.drop_last();
        let c = order.last();
        lemma_reorder_run_split(items, o);
        let (m, r) = reorder_run(items, o);
        lemma_first_ci(r, c);
        assert forall|x: Seq<u8>| o.contains(x) implies order.contains(x) by {
            let p = choose|p: int| 0 <= p < o.len() && o[p] == x;
            assert(order[p] == x);
        }
        assert forall|x: Seq<u8>| order.contains(x) && x != c implies o.contains(x) by {
            let p = choose|p: int| 0 <= p < order.len() && order[p] == x;
            assert(p < o.len());
            assert(o[p] == x);
        }
        assert(order.contains(c)) by {
            assert(order[order.len() - 1] == c);
        }
        match first_ci(r, c) {
            Some(p) => {
                let m2 = m.push(r[p]);
                let r2 = r.remove(p);
                assert(reorder_run(items, order) == (m2, r2));
                assert(!o.contains(c)) by {
                    assert(!o.contains(r[p].ci));
                }
                assert forall|i: int| 0 <= i < m2.len() implies order.contains((#[trigger] m2[i]).ci) && items.contains(
                    m2[i],
                ) by {
                    if i < m.len() {
                        assert(m2[i] == m[i]);
                    }
                }
                assert forall|i: int, j: int| 0 <= i < j < m2.len() implies named_before(order, (#[trigger] m2[i]).ci, (#[trigger] m2[j]).ci) by {
                    assert(m2[i] == m[i]);
                    if j < m.len() {
                        assert(m2[j] == m[j]);
                        assert(named_before(o, m[i].ci, m[j].ci));
                        let p0 = choose|p0: int| 0 <= p0 < o.len() && o[p0] == m[i].ci && forall|q: int| 0 <= q <= p0 ==> o[q] != m[j].ci;
                        assert(order[p0] == o[p0]);
                        assert forall|q: int| 0 <= q <= p0 implies order[q] != m2[j].ci by {
                            assert(order[q] == o[q]);
                        }
                    } else {
                        assert(m2[j] == r[p]);
                        assert(o.contains(m[i].ci));
                        let p0 = choose|p0: int| 0 <= p0 < o.len() && o[p0] == m[i].ci;
                        assert(order[p0] == o[p0]);
                        assert forall|q: int| 0 <= q <= p0 implies order[q] != m2[j].ci by {
                            assert(order[q] == o[q]);
                            assert(o.contains(o[q]));
                        }
                    }
                }
                assert forall|i: int| 0 <= i < r2.len() implies !order.contains((#[trigger] r2[i]).ci) && items.contains(
                    r2[i],
                ) by {
                    let a = if i < p { i } else { i + 1 };
                    assert(r2[i] == r[a]);
                    assert(r[a].ci != r[p].ci);
                }
                assert forall|a: int, b: int| 0 <= a < b < r2.len() implies (#[trigger] r2[a]).ci != (
                #[trigger] r2[b]).ci by {
                    let a1 = if a < p { a } else { a + 1 };
                    let b1 = if b < p { b } else { b + 1 };
                    assert(r2[a] == r[a1] && r2[b] == r[b1]);
                }
                assert forall|i: int, j: int| 0 <= i < j < r2.len() implies comes_before(items, #[trigger] r2[i], #[trigger] r2[j]) by {
                    let i1 = if i < p { i } else { i + 1 };
                    let j1 = if j < p { j } else { j + 1 };
                    assert(r2[i] == r[i1] && r2[j] == r[j1]);
                    assert(comes_before(items, r[i1], r[j1]));
                }
                assert forall|x: ItemV| #[trigger] items.contains(x) implies m2.contains(x) || r2.contains(x) by {
                    if m.contains(x) {
                        let i = choose|i: int| 0 <= i < m.len() && m[i] == x;
                        assert(m2[i] == x);
                    } else {
                        let a = choose|a: int| 0 <= a < r.len() && r[a] == x;
                        if a == p {
                            assert(m2[m.len() as int] == x);
                        } else if a < p {
                            assert(r2[a] == x);
                        } else {
                            assert(r2[a - 1] == x);
                        }
                    }
                }
            },
            None => {
                assert(reorder_run(items, order) == (m, r));
                assert forall|i: int| 0 <= i < r.len() implies !order.contains((#[trigger] r[i]).ci) && items.contains(
                    r[i],
                ) by {
                    assert(r[i].ci != c);
                }
                assert forall|i: int, j: int| 0 <= i < j < m.len() implies named_before(order, (#[trigger] m[i]).ci, (#[trigger] m[j]).ci) by {
                    assert(named_before(o, m[i].ci, m[j].ci));
                    let p0 = choose|p0: int| 0 <= p0 < o.len() && o[p0] == m[i].ci && forall|q: int| 0 <= q <= p0 ==> o[q] != m[j].ci;
                    assert(order[p0] == o[p0]);
                    assert forall|q: int| 0 <= q <= p0 implies order[q] != m[j].ci by {
                        assert(order[q] == o[q]);
                    }
                }
            },
        }
    }
}

/// How a reorder moves a collection's items, whose identities differ:
/// the items named by `order` come first, each identity before those named
/// only later in `order`; the items not named follow, in the order they had;
/// no item is lost or added.
pub proof fn law_reorder_puts_named_items_first(items: Seq<ItemV>, order: Seq<Seq<u8>>)
    requires
        forall|a: int, b: int| 0 <= a < b < items.len() ==> (#[trigger] items[a]).ci != (#[trigger] items[b]).ci,
    ensures
        ({
            let r = reorder(items, order);
            &&& r.len() == items.len()
            &&& forall|i: int| 0 <= i < r.len() ==> items.contains(#[trigger] r[i])
            &&& forall|x: ItemV| #[trigger] items.contains(x) ==> r.contains(x)
            &&& forall|i: int, j: int|
                0 <= i < j < r.len() && order.contains((#[trigger] r[j]).ci) ==> order.contains((#[trigger] r[i]).ci)
            &&& forall|i: int, j: int|
                0 <= i < j < r.len() && order.contains(r[j].ci) ==> named_before(order, (#[trigger] r[i]).ci, (#[trigger] r[j]).ci)
            &&& forall|i: int, j: int|
                0 <= i < j < r.len() && !order.contains(r[i].ci) ==> comes_before(items, #[trigger] r[i], #[trigger] r[j])
        }),
{
    lemma_reorder_run_split(items, order);
    let (m, rest) = reorder_run(items, order);
    let r = reorder(items, order);
    assert(r == m + rest);
    let k = m.len() as int;
    assert forall|i: int| 0 <= i < r.len() implies items.contains(#[trigger] r[i]) by {
        if i < k {
            assert(r[i] == m[i]);
        } else {
            assert(r[i] == rest[i - k]);
        }
    }
    assert forall|x: ItemV| #[trigger] items.contains(x) implies r.contains(x) by {
        if m.contains(x) {
            let i = choose|i: int| 0 <= i < m.len() && m[i] == x;
            assert(r[i] == x);
        } else {
            let i = choose|i: int| 0 <= i < rest.len() && rest[i] == x;
            assert(r[i + k] == x);
        }
    }
    assert forall|i: int| 0 <= i < r.len() implies (order.contains((#[trigger] r[i]).ci) <==> i < k) by {
        if i < k {
            assert(r[i] == m[i]);
        } else {
            assert(r[i] == rest[i - k]);
        }
    }
    assert forall|i: int, j: int|
        0 <= i < j < r.len() && order.contains((#[trigger] r[j]).ci) implies order.contains((#[trigger] r[i]).ci) by {
        assert(order.contains(r[j].ci) <==> j < k);
        assert(order.contains(r[i].ci) <==> i < k);
    }
    assert forall|i: int, j: int| 0 <= i < j < r.len() && order.contains(r[j].ci) implies named_before(order, (#[trigger] r[i]).ci, (#[trigger] r[j]).ci) by {
        assert(order.contains(r[j].ci) <==> j < k);
        assert(r[i] == m[i] && r[j] == m[j]);
    }
    assert forall|i: int, j: int| 0 <= i < j < r.len() && !order.contains(r[i].ci) implies comes_before(items, #[trigger] r[i], #[trigger] r[j]) by {
        assert(order.contains(r[i].ci) <==> i < k);
        assert(r[i] == rest[i - k] && r[j] == rest[j - k]);
        assert(comes_before(items, rest[i - k], rest[j - k]));
    }
}

proof fn lemma_without_ci(items: Seq<ItemV>, t: Seq<u8>)
    ensures
        forall|x: ItemV| #[trigger] without_ci(items, t).contains(x) <==> items.contains(x) && x.ci != t,
        forall|i: int, j: int|
            0 <= i < j < without_ci(items, t).len() ==> comes_before(
                items,
                #[trigger] without_ci(items, t)[i],
                #[trigger] without_ci(items, t)[j],
            ),
    decreases items.len(),
{
    if items.len() > 0 {
        let d = items.drop_last();
        lemma_without_ci(d, t);
        let w = without_ci(d, t);
        let r = without_ci(items, t);
        assert forall|x: ItemV| #[trigger] r.contains(x) <==> items.contains(x) && x.ci != t by {
            if items.contains(x) && x.ci != t {
                let k = choose|k: int| 0 <= k < items.len() && items[k] == x;
                if k < d.len() {
                    assert(d[k] == x);
                    assert(w.contains(x));
                    let m = choose|m: int| 0 <= m < w.len() && w[m] == x;
                    assert(r[m] == x);
                } else {
                    assert(r[r.len() - 1] == x);
                }
            }
            if r.contains(x) {
                let m = choose|m: int| 0 <= m < r.len() && r[m] == x;
                if m < w.len() {
                    assert(r[m] == w[m]);
                    assert(w.contains(x));
                    let k = choose|k: int| 0 <= k < d.len() && d[k] == x;
                    assert(items[k] == x);
                } else {
                    assert(x == items.last());
                    assert(items[items.len() - 1] == x);
                }
            }
        }
        assert forall|i: int, j: int| 0 <= i < j < r.len() implies comes_before(items, #[trigger] r[i], #[trigger] r[j]) by {
            if j < w.len() {
                assert(r[i] == w[i] && r[j] == w[j]);
                assert(comes_before(d, w[i], w[j]));
                let (a, b) = choose|a: int, b: int| 0 <= a < b < d.len() && d[a] == w[i] && d[b] == w[j];
                assert(items[a] == d[a] && items[b] == d[b]);
            } else {
                assert(r[i] == w[i]);
                assert(w.contains(w[i]));
                let a = choose|a: int| 0 <= a < d.len() && d[a] == w[i];
                assert(items[a] == d[a]);
                assert(r[j] == items.last());
                assert(items[items.len() - 1] == items.last());
            }
        }
    }
}

/// What adding and removing do to the items: adding an item whose identity
/// is already there replaces the first item of that identity, in place,
/// and leaves the rest; adding a new identity appends the item. Removing an
/// identity leaves exactly the items of other identities, in their order.
pub proof fn law_add_replaces_or_appends_and_remove_drops_the_identity(items: Seq<ItemV>, c: OpClaimV)
    ensures
        c.kind == OpKind::Add && c.item is Some ==> ({
            let it = c.item->0;
            let r = apply_op(items, c);
            if exists|i: int| 0 <= i < items.len() && (#[trigger] items[i]).ci == it.ci {
                exists|i: int|
                    0 <= i < items.len() && (#[trigger] items[i]).ci == it.ci && (forall|j: int|
                        0 <= j < i ==> (#[trigger] items[j]).ci != it.ci) && r == items.update(i, it)
            } else {
                r == items.push(it)
            }
        }),
        c.kind == OpKind::Remove && c.target is Some ==> ({
            let t = c.target->0;
            let r = apply_op(items, c);
            &&& forall|x: ItemV| #[trigger] r.contains(x) <==> items.contains(x) && x.ci != t
            &&& forall|i: int, j: int| 0 <= i < j < r.len() ==> comes_before(items, #[trigger] r[i], #[trigger] r[j])
        }),
{
    if c.kind == OpKind::Add && c.item is Some {
        lemma_first_ci(items, c.item->0.ci);
    }
    if c.kind == OpKind::Remove && c.target is Some {
        lemma_without_ci(items, c.target->0);
    }
}

} // verus!
