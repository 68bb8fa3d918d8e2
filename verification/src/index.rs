//! The local fold: what the records of a store say, gathered by identity.
//! Kinds of content identities, the attestations about each, the identities
//! that link to each, the external ids that name them, and the owner of each
//! collection.
use vstd::prelude::*;
use crate::address::{CiHash, ci_prefix, parse_prefixed};
use crate::assoc::{as_map, unique_keys, lemma_as_map, lemma_as_map_push, lemma_as_map_update};
use crate::cbor::{Value, Data, data_pairs, lemma_data_pairs};
use crate::collection::ci_views;
use crate::identity::Dgid;
use crate::record::{
    Attestation, AttestationV, Cir, Claim, Proof, CIR_KIND, read_attestation, read_record, same_text,
    signer_of, text_opt, proof_opt,
};
use crate::store::{BlobHash, MemBlobs};
use crate::collection::{Collection, read_collection};
use crate::envelope::{self, envelope_of};
use crate::fields::hash_views;
use crate::trust::{Trust, TrustLevel, rank, label_of};
use crate::address::{td_prefix, blob_prefix, prefixed_text};
use crate::canonical::canonical_bytes;
use crate::hex::hex_of;
use crate::identity::dgid_prefix;
use crate::ops::{AttestationView, IdentityEntry, CollectionOwner, ExternalId, IndexView};
use crate::record::{attestation_data, canon_ok, kind_label};
use crate::store::blake3_digest;
use crate::text::{owned, chars_of, same_chars};
use crate::refs::{name_le, chars_le};
use crate::sorted::{increasing, sorted_set, insert_unique, lemma_sorted_set};

verus! {

/// The fold as maps.
pub struct IndexV {
    pub kinds: Map<Seq<u8>, Seq<char>>,
    pub attestations: Map<Seq<u8>, Seq<AttestationV>>,
    pub links: Map<Seq<u8>, Seq<Seq<u8>>>,
    pub external: Map<(Seq<char>, Seq<char>), Seq<u8>>,
    pub collections: Map<Seq<char>, Seq<u8>>,
}

/// The fold of the records in a store.
pub struct Index {
    kinds: Vec<(CiHash, String)>,
    attestations: Vec<(CiHash, Vec<Attestation>)>,
    links: Vec<(CiHash, Vec<CiHash>)>,
    external: Vec<((String, String), CiHash)>,
    collections: Vec<(String, Dgid)>,
}

pub open spec fn att_views(v: Seq<Attestation>) -> Seq<AttestationV> {
    Seq::new(v.len(), |i: int| v[i]@)
}

pub open spec fn kind_entries(s: Seq<(CiHash, String)>) -> Seq<(Seq<u8>, Seq<char>)> {
    Seq::new(s.len(), |i: int| (s[i].0.0@, s[i].1@))
}

pub open spec fn att_entries(s: Seq<(CiHash, Vec<Attestation>)>) -> Seq<(Seq<u8>, Seq<AttestationV>)> {
    Seq::new(s.len(), |i: int| (s[i].0.0@, att_views(s[i].1@)))
}

pub open spec fn link_entries(s: Seq<(CiHash, Vec<CiHash>)>) -> Seq<(Seq<u8>, Seq<Seq<u8>>)> {
    Seq::new(s.len(), |i: int| (s[i].0.0@, ci_views(s[i].1@)))
}

pub open spec fn ext_entries(s: Seq<((String, String), CiHash)>) -> Seq<((Seq<char>, Seq<char>), Seq<u8>)> {
    Seq::new(s.len(), |i: int| ((s[i].0.0@, s[i].0.1@), s[i].1.0@))
}

pub open spec fn col_entries(s: Seq<(String, Dgid)>) -> Seq<(Seq<char>, Seq<u8>)> {
    Seq::new(s.len(), |i: int| (s[i].0@, s[i].1@))
}

impl View for Index {
    type V = IndexV;

    closed spec fn view(&self) -> IndexV {
        IndexV {
            kinds: as_map(kind_entries(self.kinds@)),
            attestations: as_map(att_entries(self.attestations@)),
            links: as_map(link_entries(self.links@)),
            external: as_map(ext_entries(self.external@)),
            collections: as_map(col_entries(self.collections@)),
        }
    }
}

/// The list a map holds under `k`; empty where it holds none.
pub open spec fn list_at<K, T>(m: Map<K, Seq<T>>, k: K) -> Seq<T> {
    if m.contains_key(k) {
        m[k]
    } else {
        Seq::empty()
    }
}

/// The fold of nothing.
pub open spec fn empty_index() -> IndexV {
    IndexV {
        kinds: Map::empty(),
        attestations: Map::empty(),
        links: Map::empty(),
        external: Map::empty(),
        collections: Map::empty(),
    }
}

/// `a` joined to the attestations about its claim's identity, unless it is there.
pub open spec fn with_attestation(ix: IndexV, a: AttestationV) -> IndexV {
    let held = list_at(ix.attestations, a.claim.ci);
    if held.contains(a) {
        ix
    } else {
        IndexV { attestations: ix.attestations.insert(a.claim.ci, held.push(a)), ..ix }
    }
}

/// `from` added to the identities that link to `target`.
pub open spec fn with_link(ix: IndexV, target: Seq<u8>, from: Seq<u8>) -> IndexV {
    IndexV { links: ix.links.insert(target, list_at(ix.links, target).push(from)), ..ix }
}

/// One pair of an `external` map: a text name and a text id name `ci`.
pub open spec fn ext_step(ix: IndexV, ci: Seq<u8>, e: (Data, Data)) -> IndexV {
    match (e.0, e.1) {
        (Data::Text(name), Data::Text(id)) => IndexV { external: ix.external.insert((name, id), ci), ..ix },
        _ => ix,
    }
}

pub open spec fn ext_fold(ix: IndexV, ci: Seq<u8>, es: Seq<(Data, Data)>) -> IndexV
    decreases es.len(),
{
    if es.len() == 0 {
        ix
    } else {
        ext_step(ext_fold(ix, ci, es.drop_last()), ci, es.last())
    }
}

/// One field of the body of `ci`: a text that is a `ci:` address links `ci`
/// to it; the map under `external` names `ci` by external ids.
pub open spec fn body_step(ix: IndexV, ci: Seq<u8>, e: (Data, Data)) -> IndexV {
    match e.0 {
        Data::Text(key) => match e.1 {
            Data::Text(text) => match parse_prefixed(text, ci_prefix()) {
                Some(target) => with_link(ix, target, ci),
                None => ix,
            },
            Data::Table(ext) => if key == "external"@ {
                ext_fold(ix, ci, ext)
            } else {
                ix
            },
            _ => ix,
        },
        _ => ix,
    }
}

pub open spec fn body_fold(ix: IndexV, ci: Seq<u8>, es: Seq<(Data, Data)>) -> IndexV
    decreases es.len(),
{
    if es.len() == 0 {
        ix
    } else {
        body_step(body_fold(ix, ci, es.drop_last()), ci, es.last())
    }
}

/// What the body of the record `ci` adds: nothing unless it is a map.
pub open spec fn absorbed_body(ix: IndexV, ci: Seq<u8>, body: Data) -> IndexV {
    match body {
        Data::Table(es) => body_fold(ix, ci, es),
        _ => ix,
    }
}

/// What the blob `bytes`, stored under `hash`, adds: an attestation joins
/// those about its claim's identity unless it is there already; a CIR gives
/// its identity a kind, and its body links and external ids.
pub open spec fn absorbed(ix: IndexV, hash: Seq<u8>, bytes: Seq<u8>) -> IndexV {
    match read_attestation(bytes) {
        Some(a) => with_attestation(ix, a),
        None => match read_record(bytes, CIR_KIND@) {
            Some(c) => absorbed_body(IndexV { kinds: ix.kinds.insert(hash, c.kind), ..ix }, hash, c.body),
            None => ix,
        },
    }
}

/// What the blob stored under `hash` adds; nothing when the store lacks it.
pub open spec fn absorbed_stored(ix: IndexV, store: MemBlobs, hash: Seq<u8>) -> IndexV {
    match store.held(hash) {
        Some(bytes) => absorbed(ix, hash, bytes),
        None => ix,
    }
}

/// The blobs stored under `hashes`, folded in in order.
pub open spec fn absorbed_all(ix: IndexV, store: MemBlobs, hashes: Seq<Seq<u8>>) -> IndexV
    decreases hashes.len(),
{
    if hashes.len() == 0 {
        ix
    } else {
        absorbed_stored(absorbed_all(ix, store, hashes.drop_last()), store, hashes.last())
    }
}

/// What the ref whose head is stored under `head` adds: a collection gives
/// its owner and its records; another record its listed refs.
pub open spec fn absorbed_ref(ix: IndexV, store: MemBlobs, head: Seq<u8>) -> IndexV {
    match store.held(head) {
        None => ix,
        Some(bytes) => match read_collection(bytes) {
            Some(c) => absorbed_all(
                IndexV { collections: ix.collections.insert(c.name, c.owner), ..ix },
                store,
                c.records,
            ),
            None => match envelope_of(bytes) {
                Some(e) => absorbed_all(ix, store, e.refs),
                None => ix,
            },
        },
    }
}

/// The refs whose heads are stored under `heads`, folded in in order.
pub open spec fn absorbed_refs(ix: IndexV, store: MemBlobs, heads: Seq<Seq<u8>>) -> IndexV
    decreases heads.len(),
{
    if heads.len() == 0 {
        ix
    } else {
        absorbed_ref(absorbed_refs(ix, store, heads.drop_last()), store, heads.last())
    }
}

/// The names' heads of a list of refs.
pub open spec fn ref_heads(refs: Seq<(String, BlobHash)>) -> Seq<Seq<u8>> {
    Seq::new(refs.len(), |i: int| refs[i].1@)
}

/// The blob of an attestation signed by a group trusted at least `at_least`.
pub open spec fn trusted_blob(a: AttestationV, trust: Trust, at_least: TrustLevel) -> Option<Seq<u8>> {
    match signer_of(a) {
        Some(d) => if rank(trust.level_of(d)) >= rank(at_least) {
            a.claim.blob
        } else {
            None
        },
        None => None,
    }
}

/// The blob of the first attestation that has one and a trusted signer.
pub open spec fn first_trusted(atts: Seq<AttestationV>, trust: Trust, at_least: TrustLevel) -> Option<Seq<u8>>
    decreases atts.len(),
{
    if atts.len() == 0 {
        None
    } else {
        match trusted_blob(atts[0], trust, at_least) {
            Some(b) => Some(b),
            None => first_trusted(atts.drop_first(), trust, at_least),
        }
    }
}

/// The artifact the fold resolves `ci` to under `trust`.
pub open spec fn index_resolve(ix: IndexV, ci: Seq<u8>, trust: Trust, at_least: TrustLevel) -> Option<Seq<u8>> {
    first_trusted(list_at(ix.attestations, ci), trust, at_least)
}

fn same_text_opt(a: &Option<String>, b: &Option<String>) -> (r: bool)
    ensures
        r == (text_opt(*a) == text_opt(*b)),
{
    match (a, b) {
        (Some(x), Some(y)) => same_text(x.as_str(), y.as_str()),
        (None, None) => true,
        _ => false,
    }
}

fn same_claim(a: &Claim, b: &Claim) -> (r: bool)
    ensures
        r == (a@ == b@),
{
    let td = match (a.td, b.td) {
        (Some(x), Some(y)) => x.0 == y.0,
        (None, None) => true,
        _ => false,
    };
    let blob = match (a.blob, b.blob) {
        (Some(x), Some(y)) => x.0 == y.0,
        (None, None) => true,
        _ => false,
    };
    let other = match (a.other, b.other) {
        (Some(x), Some(y)) => x.0 == y.0,
        (None, None) => true,
        _ => false,
    };
    a.kind == b.kind && a.ci.0 == b.ci.0 && td && blob && other && same_text_opt(&a.expires, &b.expires)
}

fn same_proof(a: &Option<Proof>, b: &Option<Proof>) -> (r: bool)
    ensures
        r == (proof_opt(*a) == proof_opt(*b)),
{
    match (a, b) {
        (Some(x), Some(y)) => x.dgid == y.dgid && x.sig == y.sig,
        (None, None) => true,
        _ => false,
    }
}

fn same_attestation(a: &Attestation, b: &Attestation) -> (r: bool)
    ensures
        r == (a@ == b@),
{
    same_text(a.record.as_str(), b.record.as_str()) && same_claim(&a.claim, &b.claim) && same_proof(
        &a.proof,
        &b.proof,
    )
}

fn holds_attestation(v: &Vec<Attestation>, a: &Attestation) -> (r: bool)
    ensures
        r == att_views(v@).contains(a@),
{
    let mut i: usize = 0;
    while i < v.len()
        invariant
            i <= v.len(),
            forall|j: int| 0 <= j < i ==> v@[j]@ != a@,
        decreases v.len() - i,
    {
        if same_attestation(&v[i], a) {
            assert(att_views(v@)[i as int] == a@);
            return true;
        }
        i = i + 1;
    }
    proof {
        if att_views(v@).contains(a@) {
            let j = choose|j: int| 0 <= j < att_views(v@).len() && att_views(v@)[j] == a@;
            assert(v@[j]@ == a@);
        }
    }
    false
}

/// A copy of an attestation.
pub fn copy_attestation(a: &Attestation) -> (c: Attestation)
    ensures
        c@ == a@,
        c.claim.td == a.claim.td,
{
    let claim = Claim {
        kind: a.claim.kind,
        ci: a.claim.ci,
        td: a.claim.td,
        blob: a.claim.blob,
        other: a.claim.other,
        expires: match &a.claim.expires {
            Some(t) => Some(t.clone()),
            None => None,
        },
    };
    Attestation { record: a.record.clone(), claim, proof: a.proof }
}

/// The position of the entry keyed by `ci`.
fn find_ci<T>(s: &Vec<(CiHash, T)>, ci: &CiHash) -> (r: Option<usize>)
    ensures
        match r {
            Some(i) => i < s.len() && s@[i as int].0.0@ == ci.0@,
            None => forall|j: int| 0 <= j < s.len() ==> s@[j].0.0@ != ci.0@,
        },
{
    let mut i: usize = 0;
    while i < s.len()
        invariant
            i <= s.len(),
            forall|j: int| 0 <= j < i ==> s@[j].0.0@ != ci.0@,
        decreases s.len() - i,
    {
        if s[i].0.0 == ci.0 {
            return Some(i);
        }
        i = i + 1;
    }
    None
}

/// A key that no entry carries is not in the map.
proof fn lemma_absent<K, V>(s: Seq<(K, V)>, k: K)
    requires
        unique_keys(s),
        forall|j: int| 0 <= j < s.len() ==> s[j].0 != k,
    ensures
        !as_map(s).contains_key(k),
{
    lemma_as_map(s);
    if as_map(s).contains_key(k) {
        let j = choose|j: int| 0 <= j < s.len() && s[j].0 == k;
        assert(s[j].0 != k);
    }
}

impl Index {
    /// The entries keep one key each.
    pub closed spec fn wf(&self) -> bool {
        &&& unique_keys(kind_entries(self.kinds@))
        &&& unique_keys(att_entries(self.attestations@))
        &&& unique_keys(link_entries(self.links@))
        &&& unique_keys(ext_entries(self.external@))
        &&& unique_keys(col_entries(self.collections@))
    }

    fn set_kind(&mut self, ci: CiHash, kind: String)
        requires
            old(self).wf(),
        ensures
            final(self).wf(),
            final(self)@ == (IndexV { kinds: old(self)@.kinds.insert(ci.0@, kind@), ..old(self)@ }),
    {
        let ghost e = kind_entries(self.kinds@);
        let ghost k = ci.0@;
        let ghost v = kind@;
        match find_ci(&self.kinds, &ci) {
            Some(i) => {
                self.kinds.set(i, (ci, kind));
                proof {
                    assert(kind_entries(self.kinds@) =~= e.update(i as int, (e[i as int].0, v)));
                    lemma_as_map_update(e, i as int, v);
                }
            },
            None => {
                self.kinds.push((ci, kind));
                proof {
                    lemma_absent(e, k);
                    assert(kind_entries(self.kinds@) =~= e.push((k, v)));
                    lemma_as_map_push(e, k, v);
                }
            },
        }
    }

    fn add_attestation(&mut self, a: Attestation)
        requires
            old(self).wf(),
        ensures
            final(self).wf(),
            final(self)@ == with_attestation(old(self)@, a@),
    {
        let ghost e = att_entries(self.attestations@);
        let ghost av = a@;
        let ci = a.claim.ci;
        let ghost k = ci.0@;
        match find_ci(&self.attestations, &ci) {
            None => {
                let mut v: Vec<Attestation> = Vec::new();
                v.push(a);
                self.attestations.push((ci, v));
                proof {
                    lemma_absent(e, k);
                    assert(att_views(v@) =~= Seq::<AttestationV>::empty().push(av));
                    assert(att_entries(self.attestations@) =~= e.push((k, att_views(v@))));
                    lemma_as_map_push(e, k, att_views(v@));
                }
            },
            Some(i) => {
                proof {
                    lemma_as_map(e);
                    assert(e[i as int].0 == k);
                }
                if holds_attestation(&self.attestations[i].1, &a) {
                    return;
                }
                let (key, mut list) = self.attestations.remove(i);
                let ghost before = att_views(list@);
                list.push(a);
                assert(att_views(list@) =~= before.push(av));
                self.attestations.insert(i, (key, list));
                proof {
                    assert(att_entries(self.attestations@) =~= e.update(i as int, (k, before.push(av))));
                    lemma_as_map_update(e, i as int, before.push(av));
                }
            },
        }
    }

    fn add_link(&mut self, target: CiHash, from: CiHash)
        requires
            old(self).wf(),
        ensures
            final(self).wf(),
            final(self)@ == with_link(old(self)@, target.0@, from.0@),
    {
        let ghost e = link_entries(self.links@);
        let ghost k = target.0@;
        let ghost f = from.0@;
        match find_ci(&self.links, &target) {
            None => {
                let mut v: Vec<CiHash> = Vec::new();
                v.push(from);
                self.links.push((target, v));
                proof {
                    lemma_absent(e, k);
                    assert(ci_views(v@) =~= Seq::<Seq<u8>>::empty().push(f));
                    assert(link_entries(self.links@) =~= e.push((k, ci_views(v@))));
                    lemma_as_map_push(e, k, ci_views(v@));
                }
            },
            Some(i) => {
                proof {
                    lemma_as_map(e);
                    assert(e[i as int].0 == k);
                }
                let (key, mut list) = self.links.remove(i);
                let ghost before = ci_views(list@);
                list.push(from);
                assert(ci_views(list@) =~= before.push(f));
                self.links.insert(i, (key, list));
                proof {
                    assert(link_entries(self.links@) =~= e.update(i as int, (k, before.push(f))));
                    lemma_as_map_update(e, i as int, before.push(f));
                }
            },
        }
    }

    fn set_external(&mut self, name: String, id: String, ci: CiHash)
        requires
            old(self).wf(),
        ensures
            final(self).wf(),
            final(self)@ == (IndexV {
                external: old(self)@.external.insert((name@, id@), ci.0@),
                ..old(self)@
            }),
    {
        let ghost e = ext_entries(self.external@);
        let ghost k = (name@, id@);
        let ghost v = ci.0@;
        let mut i: usize = 0;
        while i < self.external.len()
            invariant
                i <= self.external.len(),
                *self == *old(self),
                old(self).wf(),
                e == ext_entries(self.external@),
                k == (name@, id@),
                v == ci.0@,
                forall|j: int| 0 <= j < i ==> e[j].0 != k,
            decreases self.external.len() - i,
        {
            if same_text(self.external[i].0.0.as_str(), name.as_str()) && same_text(
                self.external[i].0.1.as_str(),
                id.as_str(),
            ) {
                self.external.set(i, ((name, id), ci));
                proof {
                    assert(e[i as int].0 == k);
                    assert(ext_entries(self.external@) =~= e.update(i as int, (e[i as int].0, v)));
                    lemma_as_map_update(e, i as int, v);
                }
                return;
            }
            i = i + 1;
        }
        self.external.push(((name, id), ci));
        proof {
            lemma_absent(e, k);
            assert(ext_entries(self.external@) =~= e.push((k, v)));
            lemma_as_map_push(e, k, v);
        }
    }

    fn set_owner(&mut self, name: String, owner: Dgid)
        requires
            old(self).wf(),
        ensures
            final(self).wf(),
            final(self)@ == (IndexV {
                collections: old(self)@.collections.insert(name@, owner@),
                ..old(self)@
            }),
    {
        let ghost e = col_entries(self.collections@);
        let ghost k = name@;
        let ghost v = owner@;
        let mut i: usize = 0;
        while i < self.collections.len()
            invariant
                i <= self.collections.len(),
                *self == *old(self),
                old(self).wf(),
                e == col_entries(self.collections@),
                k == name@,
                v == owner@,
                forall|j: int| 0 <= j < i ==> e[j].0 != k,
            decreases self.collections.len() - i,
        {
            if same_text(self.collections[i].0.as_str(), name.as_str()) {
                self.collections.set(i, (name, owner));
                proof {
                    assert(col_entries(self.collections@) =~= e.update(i as int, (e[i as int].0, v)));
                    lemma_as_map_update(e, i as int, v);
                }
                return;
            }
            i = i + 1;
        }
        self.collections.push((name, owner));
        proof {
            lemma_absent(e, k);
            assert(col_entries(self.collections@) =~= e.push((k, v)));
            lemma_as_map_push(e, k, v);
        }
    }

    fn absorb_external(&mut self, ci: CiHash, ext: &Vec<(Value, Value)>)
        requires
            old(self).wf(),
        ensures
            final(self).wf(),
            final(self)@ == ext_fold(old(self)@, ci.0@, data_pairs(ext@)),
    {
        let ghost es = data_pairs(ext@);
        let ghost start = self@;
        proof {
            lemma_data_pairs(ext@);
            assert(es.take(0) =~= Seq::<(Data, Data)>::empty());
        }
        let mut i: usize = 0;
        while i < ext.len()
            invariant
                i <= ext.len(),
                self.wf(),
                es == data_pairs(ext@),
                es.len() == ext.len(),
                forall|j: int| 0 <= j < ext.len() ==> #[trigger] es[j] == (ext@[j].0@, ext@[j].1@),
                self@ == ext_fold(start, ci.0@, es.take(i as int)),
            decreases ext.len() - i,
        {
            assert(es.take(i + 1).drop_last() =~= es.take(i as int));
            assert(es.take(i + 1).last() == es[i as int]);
            match (&ext[i].0, &ext[i].1) {
                (Value::Text(name), Value::Text(id)) => {
                    self.set_external(name.clone(), id.clone(), ci);
                },
                _ => {},
            }
            i = i + 1;
        }
        assert(es.take(i as int) =~= es);
    }

    fn absorb_body(&mut self, ci: CiHash, body: &Value)
        requires
            old(self).wf(),
        ensures
            final(self).wf(),
            final(self)@ == absorbed_body(old(self)@, ci.0@, body@),
    {
        let entries = match body {
            Value::Table(entries) => entries,
            _ => return,
        };
        let ghost es = data_pairs(entries@);
        let ghost start = self@;
        proof {
            lemma_data_pairs(entries@);
            assert(es.take(0) =~= Seq::<(Data, Data)>::empty());
        }
        let mut i: usize = 0;
        while i < entries.len()
            invariant
                i <= entries.len(),
                self.wf(),
                es == data_pairs(entries@),
                es.len() == entries.len(),
                forall|j: int| 0 <= j < entries.len() ==> #[trigger] es[j] == (entries@[j].0@, entries@[j].1@),
                self@ == body_fold(start, ci.0@, es.take(i as int)),
            decreases entries.len() - i,
        {
            assert(es.take(i + 1).drop_last() =~= es.take(i as int));
            assert(es.take(i + 1).last() == es[i as int]);
            match &entries[i].0 {
                Value::Text(key) => match &entries[i].1 {
                    Value::Text(text) => match CiHash::parse(text.as_str()) {
                        Some(target) => self.add_link(target, ci),
                        None => {},
                    },
                    Value::Table(ext) => {
                        if same_text(key.as_str(), "external") {
                            self.absorb_external(ci, ext);
                        }
                    },
                    _ => {},
                },
                _ => {},
            }
            i = i + 1;
        }
        assert(es.take(i as int) =~= es);
    }

    /// Folds in the blob `bytes` stored under `hash`.
    pub fn absorb_blob(&mut self, hash: BlobHash, bytes: &[u8])
        requires
            old(self).wf(),
        ensures
            final(self).wf(),
            final(self)@ == absorbed(old(self)@, hash@, bytes@),
    {
        match Attestation::decode(bytes) {
            Ok(a) => {
                self.add_attestation(a);
                return;
            },
            Err(_) => {},
        }
        match Cir::decode(bytes) {
            Ok(c) => {
                let ci = CiHash(hash);
                self.set_kind(ci, c.kind);
                self.absorb_body(ci, &c.body);
            },
            Err(_) => {},
        }
    }

    /// The kind of the record `ci`.
    pub fn kind_of(&self, ci: CiHash) -> (r: Option<&str>)
        requires
            self.wf(),
        ensures
            match r {
                Some(k) => self@.kinds.contains_key(ci.0@) && self@.kinds[ci.0@] == k@,
                None => !self@.kinds.contains_key(ci.0@),
            },
    {
        let ghost e = kind_entries(self.kinds@);
        match find_ci(&self.kinds, &ci) {
            Some(i) => {
                proof {
                    lemma_as_map(e);
                    assert(e[i as int].0 == ci.0@);
                }
                Some(self.kinds[i].1.as_str())
            },
            None => {
                proof {
                    lemma_absent(e, ci.0@);
                }
                None
            },
        }
    }

    /// The attestations about `ci`, in the order they were folded in.
    pub fn attestations_for(&self, ci: CiHash) -> (r: &[Attestation])
        requires
            self.wf(),
        ensures
            att_views(r@) == list_at(self@.attestations, ci.0@),
    {
        let ghost e = att_entries(self.attestations@);
        match find_ci(&self.attestations, &ci) {
            Some(i) => {
                proof {
                    lemma_as_map(e);
                    assert(e[i as int].0 == ci.0@);
                }
                self.attestations[i].1.as_slice()
            },
            None => {
                proof {
                    lemma_absent(e, ci.0@);
                }
                let none: &[Attestation] = &[];
                assert(att_views(none@) =~= Seq::<AttestationV>::empty());
                none
            },
        }
    }

    /// The identities whose bodies name `ci`, in the order they were folded in.
    pub fn linked_to(&self, ci: CiHash) -> (r: &[CiHash])
        requires
            self.wf(),
        ensures
            ci_views(r@) == list_at(self@.links, ci.0@),
    {
        let ghost e = link_entries(self.links@);
        match find_ci(&self.links, &ci) {
            Some(i) => {
                proof {
                    lemma_as_map(e);
                    assert(e[i as int].0 == ci.0@);
                }
                self.links[i].1.as_slice()
            },
            None => {
                proof {
                    lemma_absent(e, ci.0@);
                }
                let none: &[CiHash] = &[];
                assert(ci_views(none@) =~= Seq::<Seq<u8>>::empty());
                none
            },
        }
    }

    /// The identity that the external id `value` under `key` names.
    pub fn by_external(&self, key: &str, value: &str) -> (r: Option<CiHash>)
        requires
            self.wf(),
        ensures
            match r {
                Some(ci) => self@.external.contains_key((key@, value@)) && self@.external[(key@, value@)]
                    == ci.0@,
                None => !self@.external.contains_key((key@, value@)),
            },
    {
        let ghost e = ext_entries(self.external@);
        proof {
            lemma_as_map(e);
        }
        let mut i: usize = 0;
        while i < self.external.len()
            invariant
                i <= self.external.len(),
                self.wf(),
                e == ext_entries(self.external@),
                forall|j: int| 0 <= j < i ==> e[j].0 != (key@, value@),
            decreases self.external.len() - i,
        {
            if same_text(self.external[i].0.0.as_str(), key) && same_text(self.external[i].0.1.as_str(), value) {
                proof {
                    lemma_as_map(e);
                    assert(e[i as int].0 == (key@, value@));
                }
                return Some(self.external[i].1);
            }
            i = i + 1;
        }
        proof {
            lemma_absent(e, (key@, value@));
        }
        None
    }

    /// The owner of the collection `collection`.
    pub fn owner_of(&self, collection: &str) -> (r: Option<Dgid>)
        requires
            self.wf(),
        ensures
            match r {
                Some(d) => self@.collections.contains_key(collection@) && self@.collections[collection@]
                    == d@,
                None => !self@.collections.contains_key(collection@),
            },
    {
        let ghost e = col_entries(self.collections@);
        proof {
            lemma_as_map(e);
        }
        let mut i: usize = 0;
        while i < self.collections.len()
            invariant
                i <= self.collections.len(),
                self.wf(),
                e == col_entries(self.collections@),
                forall|j: int| 0 <= j < i ==> e[j].0 != collection@,
            decreases self.collections.len() - i,
        {
            if same_text(self.collections[i].0.as_str(), collection) {
                proof {
                    lemma_as_map(e);
                    assert(e[i as int].0 == collection@);
                }
                return Some(self.collections[i].1);
            }
            i = i + 1;
        }
        proof {
            lemma_absent(e, collection@);
        }
        None
    }

    /// The collections folded in, each once, with their owners.
    pub fn collections(&self) -> (r: &[(String, Dgid)])
        requires
            self.wf(),
        ensures
            unique_keys(col_entries(r@)),
            as_map(col_entries(r@)) == self@.collections,
    {
        self.collections.as_slice()
    }

    /// The artifact `ci` resolves to: the blob of the first attestation about
    /// it that names one and is signed by a group trusted at least `at_least`.
    pub fn resolve(&self, ci: CiHash, trust: &Trust, at_least: TrustLevel) -> (r: Option<BlobHash>)
        requires
            self.wf(),
        ensures
            match r {
                Some(b) => index_resolve(self@, ci.0@, *trust, at_least) == Some(b@),
                None => index_resolve(self@, ci.0@, *trust, at_least) is None,
            },
    {
        let atts = self.attestations_for(ci);
        let ghost all = att_views(atts@);
        assert(all.skip(0) =~= all);
        let mut i: usize = 0;
        while i < atts.len()
            invariant
                i <= atts.len(),
                all == att_views(atts@),
                all == list_at(self@.attestations, ci.0@),
                first_trusted(all, *trust, at_least) == first_trusted(all.skip(i as int), *trust, at_least),
            decreases atts.len() - i,
        {
            let a = &atts[i];
            assert(all.skip(i as int)[0] == a@);
            assert(all.skip(i as int).drop_first() =~= all.skip(i + 1));
            match a.signer() {
                Some(d) => {
                    if trust.trusts(d, at_least) {
                        match a.claim.blob {
                            Some(b) => return Some(b.0),
                            None => {},
                        }
                    }
                },
                None => {},
            }
            i = i + 1;
        }
        None
    }

    /// Folds in the blob stored under `hash`, if the store holds it.
    pub fn absorb_stored(&mut self, store: &MemBlobs, hash: BlobHash)
        requires
            old(self).wf(),
        ensures
            final(self).wf(),
            final(self)@ == absorbed_stored(old(self)@, *store, hash@),
    {
        match store.get(hash) {
            Ok(bytes) => self.absorb_blob(hash, bytes.as_slice()),
            Err(_) => {},
        }
    }

    fn absorb_all(&mut self, store: &MemBlobs, hashes: &Vec<BlobHash>)
        requires
            old(self).wf(),
        ensures
            final(self).wf(),
            final(self)@ == absorbed_all(old(self)@, *store, hash_views(hashes@)),
    {
        let ghost hs = hash_views(hashes@);
        let ghost start = self@;
        assert(hs.take(0) =~= Seq::<Seq<u8>>::empty());
        let mut i: usize = 0;
        while i < hashes.len()
            invariant
                i <= hashes.len(),
                self.wf(),
                hs == hash_views(hashes@),
                self@ == absorbed_all(start, *store, hs.take(i as int)),
            decreases hashes.len() - i,
        {
            assert(hs.take(i + 1).drop_last() =~= hs.take(i as int));
            assert(hs.take(i + 1).last() == hashes@[i as int]@);
            self.absorb_stored(store, hashes[i]);
            i = i + 1;
        }
        assert(hs.take(i as int) =~= hs);
    }

    /// Folds in the ref whose head is stored under `head`: a collection head
    /// gives its owner and its records; another record the blobs it lists.
    pub fn absorb_ref(&mut self, store: &MemBlobs, head: BlobHash)
        requires
            old(self).wf(),
        ensures
            final(self).wf(),
            final(self)@ == absorbed_ref(old(self)@, *store, head@),
    {
        let bytes = match store.get(head) {
            Ok(bytes) => bytes,
            Err(_) => return,
        };
        match Collection::decode(bytes.as_slice()) {
            Ok(c) => {
                self.set_owner(c.name, c.owner);
                self.absorb_all(store, &c.records);
            },
            Err(_) => match envelope::of(bytes.as_slice()) {
                Some(e) => self.absorb_all(store, &e.refs),
                None => {},
            },
        }
    }

    /// The fold of the refs `refs` of `store`, each a name and its head.
    pub fn build(store: &MemBlobs, refs: &Vec<(String, BlobHash)>) -> (ix: Self)
        ensures
            ix.wf(),
            ix@ == absorbed_refs(empty_index(), *store, ref_heads(refs@)),
    {
        let mut ix = Index::new();
        let ghost hs = ref_heads(refs@);
        assert(hs.take(0) =~= Seq::<Seq<u8>>::empty());
        let mut i: usize = 0;
        while i < refs.len()
            invariant
                i <= refs.len(),
                ix.wf(),
                hs == ref_heads(refs@),
                ix@ == absorbed_refs(empty_index(), *store, hs.take(i as int)),
            decreases refs.len() - i,
        {
            assert(hs.take(i + 1).drop_last() =~= hs.take(i as int));
            assert(hs.take(i + 1).last() == refs@[i as int].1@);
            ix.absorb_ref(store, refs[i].1);
            i = i + 1;
        }
        assert(hs.take(i as int) =~= hs);
        ix
    }

    /// The identities with a kind, each once, with their kinds.
    pub fn cis(&self) -> (r: &[(CiHash, String)])
        requires
            self.wf(),
        ensures
            unique_keys(kind_entries(r@)),
            as_map(kind_entries(r@)) == self@.kinds,
    {
        self.kinds.as_slice()
    }

    /// The external ids, each once, with the identities they name.
    pub fn externals(&self) -> (r: &[((String, String), CiHash)])
        requires
            self.wf(),
        ensures
            unique_keys(ext_entries(r@)),
            as_map(ext_entries(r@)) == self@.external,
    {
        self.external.as_slice()
    }

    pub fn new() -> (ix: Self)
        ensures
            ix.wf(),
            ix@ == empty_index(),
    {
        let ix = Index {
            kinds: Vec::new(),
            attestations: Vec::new(),
            links: Vec::new(),
            external: Vec::new(),
            collections: Vec::new(),
        };
        assert(kind_entries(ix.kinds@) =~= Seq::empty());
        assert(att_entries(ix.attestations@) =~= Seq::empty());
        assert(link_entries(ix.links@) =~= Seq::empty());
        assert(ext_entries(ix.external@) =~= Seq::empty());
        assert(col_entries(ix.collections@) =~= Seq::empty());
        assert(ix@.kinds =~= Map::empty());
        assert(ix@.attestations =~= Map::empty());
        assert(ix@.links =~= Map::empty());
        assert(ix@.external =~= Map::empty());
        assert(ix@.collections =~= Map::empty());
        ix
    }
}

/// An optional hash written behind `prefix`.
pub open spec fn opt_prefixed(prefix: Seq<char>, h: Option<Seq<u8>>) -> Option<Seq<char>> {
    match h {
        Some(h) => Some(prefixed_text(prefix, h)),
        None => None,
    }
}

pub open spec fn opt_string(o: Option<String>) -> Option<Seq<char>> {
    match o {
        Some(s) => Some(s@),
        None => None,
    }
}

/// The address an attestation is listed under: the hash of its canonical
/// bytes, or the hash of nothing when it has no canonical form.
pub open spec fn listed_hash(a: AttestationV) -> Seq<u8> {
    if canon_ok(attestation_data(a)) {
        blake3_digest(canonical_bytes(attestation_data(a)))
    } else {
        blake3_digest(Seq::empty())
    }
}

/// The label of the level the signer of `a` is trusted at; `unsigned`
/// without a valid signature.
pub open spec fn level_text(a: AttestationV, trust: Trust) -> Seq<char> {
    match signer_of(a) {
        Some(d) => label_of(trust.level_of(d)),
        None => "unsigned"@,
    }
}

/// Whether `v` shows the attestation `a` listed under `hash`, its signer
/// and how far that signer is trusted.
pub open spec fn shows_attestation(v: AttestationView, hash: Seq<u8>, a: AttestationV, trust: Trust) -> bool {
    &&& v.hash@ == hex_of(hash)
    &&& v.kind@ == kind_label(a.claim.kind)
    &&& v.ci@ == prefixed_text(ci_prefix(), a.claim.ci)
    &&& opt_string(v.td) == opt_prefixed(td_prefix(), a.claim.td)
    &&& opt_string(v.blob) == opt_prefixed(blob_prefix(), a.claim.blob)
    &&& opt_string(v.other) == opt_prefixed(ci_prefix(), a.claim.other)
    &&& opt_string(v.expires) == a.claim.expires
    &&& opt_string(v.signer) == match signer_of(a) {
        Some(d) => Some(dgid_prefix() + hex_of(d)),
        None => None,
    }
    &&& v.level@ == level_text(a, trust)
}

fn opt_text(o: &Option<String>) -> (r: Option<String>)
    ensures
        opt_string(r) == opt_string(*o),
{
    match o {
        Some(t) => Some(t.clone()),
        None => None,
    }
}

/// How `a`, listed under `hash`, is shown.
pub fn attestation_view(hash: BlobHash, a: &Attestation, trust: &Trust) -> (v: AttestationView)
    ensures
        shows_attestation(v, hash@, a@, *trust),
{
    let signer = a.signer();
    let level = match signer {
        Some(d) => owned(trust.level(d).label().as_str()),
        None => owned("unsigned"),
    };
    AttestationView {
        hash: hash.to_hex(),
        kind: owned(a.claim.kind.label()),
        ci: a.claim.ci.to_string(),
        td: match a.claim.td {
            Some(t) => Some(t.to_string()),
            None => None,
        },
        blob: match a.claim.blob {
            Some(b) => Some(b.to_string()),
            None => None,
        },
        other: match a.claim.other {
            Some(o) => Some(o.to_string()),
            None => None,
        },
        expires: opt_text(&a.claim.expires),
        signer: match signer {
            Some(d) => Some(d.to_string()),
            None => None,
        },
        level,
    }
}

/// The address `a` is listed under.
fn listed_hash_of(a: &Attestation) -> (h: BlobHash)
    ensures
        h@ == listed_hash(a@),
{
    match a.address() {
        Ok(h) => h.0,
        Err(_) => {
            let nothing: Vec<u8> = Vec::new();
            assert(nothing@ =~= Seq::<u8>::empty());
            BlobHash::of(nothing.as_slice())
        },
    }
}

/// Whether `e` shows the identity `ci` of the fold `ix`: its kind, the
/// identities linking to it and the attestations about it, in the order they
/// were folded in.
pub open spec fn shows_identity(e: IdentityEntry, ix: IndexV, ci: Seq<u8>, trust: Trust) -> bool {
    let links = list_at(ix.links, ci);
    let atts = list_at(ix.attestations, ci);
    &&& e.ci@ == prefixed_text(ci_prefix(), ci)
    &&& ix.kinds.contains_key(ci) && e.kind@ == ix.kinds[ci]
    &&& e.linked_from@.len() == links.len()
    &&& forall|i: int| 0 <= i < links.len() ==> #[trigger] e.linked_from@[i]@ == prefixed_text(ci_prefix(), links[i])
    &&& e.attestations@.len() == atts.len()
    &&& forall|i: int|
        0 <= i < atts.len() ==> shows_attestation(#[trigger] e.attestations@[i], listed_hash(atts[i]), atts[i], trust)
}

impl Index {
    fn identity_entry(&self, ci: CiHash, trust: &Trust) -> (e: IdentityEntry)
        requires
            self.wf(),
            self@.kinds.contains_key(ci.0@),
        ensures
            shows_identity(e, self@, ci.0@, *trust),
    {
        let kind = match self.kind_of(ci) {
            Some(k) => owned(k),
            None => String::new(),
        };
        let links = self.linked_to(ci);
        let mut linked_from: Vec<String> = Vec::new();
        let mut i: usize = 0;
        while i < links.len()
            invariant
                i <= links.len(),
                ci_views(links@) == list_at(self@.links, ci.0@),
                linked_from@.len() == i,
                forall|j: int| 0 <= j < i ==> #[trigger] linked_from@[j]@ == prefixed_text(ci_prefix(), links@[j].0@),
            decreases links.len() - i,
        {
            linked_from.push(links[i].to_string());
            i = i + 1;
        }
        let atts = self.attestations_for(ci);
        let mut attestations: Vec<AttestationView> = Vec::new();
        let mut j: usize = 0;
        while j < atts.len()
            invariant
                j <= atts.len(),
                att_views(atts@) == list_at(self@.attestations, ci.0@),
                attestations@.len() == j,
                forall|k: int|
                    0 <= k < j ==> shows_attestation(#[trigger] attestations@[k], listed_hash(atts@[k]@), atts@[k]@, *trust),
            decreases atts.len() - j,
        {
            let hash = listed_hash_of(&atts[j]);
            attestations.push(attestation_view(hash, &atts[j], trust));
            j = j + 1;
        }
        IdentityEntry { ci: ci.to_string(), kind, linked_from, attestations }
    }
}

proof fn lemma_name_total(a: Seq<char>, b: Seq<char>)
    ensures
        name_le(a, b) || name_le(b, a),
    decreases a.len(),
{
    if a.len() > 0 && b.len() > 0 && a[0] == b[0] {
        lemma_name_total(a.drop_first(), b.drop_first());
    }
}

proof fn lemma_name_antisym(a: Seq<char>, b: Seq<char>)
    requires
        name_le(a, b),
        name_le(b, a),
    ensures
        a == b,
    decreases a.len(),
{
    if a.len() > 0 && b.len() > 0 {
        lemma_name_antisym(a.drop_first(), b.drop_first());
        assert(a =~= seq![a[0]] + a.drop_first());
        assert(b =~= seq![b[0]] + b.drop_first());
    }
}

proof fn lemma_name_trans(a: Seq<char>, b: Seq<char>, c: Seq<char>)
    requires
        name_le(a, b),
        name_le(b, c),
    ensures
        name_le(a, c),
    decreases a.len(),
{
    if a.len() > 0 && b.len() > 0 && c.len() > 0 && a[0] == b[0] && b[0] == c[0] {
        lemma_name_trans(a.drop_first(), b.drop_first(), c.drop_first());
    }
}

/// `a` sorts strictly before `b`.
pub open spec fn name_lt(a: Seq<char>, b: Seq<char>) -> bool {
    name_le(a, b) && a != b
}

/// A pair of names sorts by its first name, then its second.
pub open spec fn pair_lt(a: (Seq<char>, Seq<char>), b: (Seq<char>, Seq<char>)) -> bool {
    name_lt(a.0, b.0) || (a.0 == b.0 && name_lt(a.1, b.1))
}

proof fn lemma_name_lt_trans(a: Seq<char>, b: Seq<char>, c: Seq<char>)
    requires
        name_lt(a, b),
        name_lt(b, c),
    ensures
        name_lt(a, c),
{
    lemma_name_trans(a, b, c);
    if a == c {
        lemma_name_antisym(a, b);
    }
}

proof fn lemma_name_lt_total(a: Seq<char>, b: Seq<char>)
    ensures
        a == b || name_lt(a, b) || name_lt(b, a),
{
    lemma_name_total(a, b);
}

proof fn lemma_pair_lt_trans(a: (Seq<char>, Seq<char>), b: (Seq<char>, Seq<char>), c: (Seq<char>, Seq<char>))
    requires
        pair_lt(a, b),
        pair_lt(b, c),
    ensures
        pair_lt(a, c),
{
    if name_lt(a.0, b.0) && name_lt(b.0, c.0) {
        lemma_name_lt_trans(a.0, b.0, c.0);
    } else if name_lt(a.1, b.1) && name_lt(b.1, c.1) && a.0 == b.0 && b.0 == c.0 {
        lemma_name_lt_trans(a.1, b.1, c.1);
    }
}

proof fn lemma_pair_lt_total(a: (Seq<char>, Seq<char>), b: (Seq<char>, Seq<char>))
    ensures
        a == b || pair_lt(a, b) || pair_lt(b, a),
{
    lemma_name_lt_total(a.0, b.0);
    lemma_name_lt_total(a.1, b.1);
}

pub(crate) fn name_lt_exec(a: &str, b: &str) -> (r: bool)
    ensures
        r == name_lt(a@, b@),
{
    let x = chars_of(a);
    let y = chars_of(b);
    chars_le(&x, &y) && !same_chars(&x, &y)
}

/// The names of collection owners, in order.
pub open spec fn owner_names(v: Seq<CollectionOwner>) -> Seq<Seq<char>> {
    Seq::new(v.len(), |i: int| v[i].name@)
}

/// The keys of external ids, in order.
pub open spec fn external_keys(v: Seq<ExternalId>) -> Seq<(Seq<char>, Seq<char>)> {
    Seq::new(v.len(), |i: int| (v[i].key@, v[i].value@))
}

/// Whether `v` shows the collections of `ix`, each once, in increasing order
/// of name, with their owners.
pub open spec fn shows_collections(v: Seq<CollectionOwner>, ix: IndexV) -> bool {
    &&& forall|i: int, j: int| 0 <= i < j < v.len() ==> name_lt(#[trigger] v[i].name@, #[trigger] v[j].name@)
    &&& forall|i: int|
        0 <= i < v.len() ==> ix.collections.contains_key(#[trigger] v[i].name@) && v[i].owner@ == dgid_prefix()
            + hex_of(ix.collections[v[i].name@])
    &&& forall|k: Seq<char>| #[trigger] ix.collections.contains_key(k) ==> owner_names(v).contains(k)
}

/// Whether `v` shows the external ids of `ix`, each once, in increasing
/// order of name and id, with the identities they name.
pub open spec fn shows_externals(v: Seq<ExternalId>, ix: IndexV) -> bool {
    &&& forall|i: int, j: int|
        0 <= i < j < v.len() ==> pair_lt((#[trigger] v[i].key@, v[i].value@), (#[trigger] v[j].key@, v[j].value@))
    &&& forall|i: int|
        0 <= i < v.len() ==> ix.external.contains_key((#[trigger] v[i].key@, v[i].value@)) && v[i].ci@
            == prefixed_text(ci_prefix(), ix.external[(v[i].key@, v[i].value@)])
    &&& forall|k: (Seq<char>, Seq<char>)| #[trigger] ix.external.contains_key(k) ==> external_keys(v).contains(k)
}

/// Whether `v` shows the fold `ix` under `trust`: its collections by name,
/// its content identities by address, its external ids by name and id.
pub open spec fn shows_index(v: IndexView, ix: IndexV, trust: Trust) -> bool {
    let ks = sorted_set(ix.kinds.dom());
    &&& shows_collections(v.collections@, ix)
    &&& v.identities@.len() == ks.len()
    &&& forall|i: int| 0 <= i < ks.len() ==> shows_identity(#[trigger] v.identities@[i], ix, ks[i], trust)
    &&& shows_externals(v.externals@, ix)
}

impl Index {
    /// The collections, each once, in increasing order of name.
    fn owners_sorted(&self) -> (v: Vec<CollectionOwner>)
        requires
            self.wf(),
        ensures
            shows_collections(v@, self@),
    {
        let ghost e = col_entries(self.collections@);
        proof {
            lemma_as_map(e);
        }
        let mut out: Vec<CollectionOwner> = Vec::new();
        let mut i: usize = 0;
        while i < self.collections.len()
            invariant
                i <= self.collections.len(),
                self.wf(),
                e == col_entries(self.collections@),
                forall|a: int, b: int| 0 <= a < b < out.len() ==> name_lt(#[trigger] out@[a].name@, #[trigger] out@[b].name@),
                forall|m: int|
                    0 <= m < out.len() ==> self@.collections.contains_key(#[trigger] out@[m].name@) && out@[m].owner@
                        == dgid_prefix() + hex_of(self@.collections[out@[m].name@]),
                forall|m: int| 0 <= m < out.len() ==> exists|t: int| 0 <= t < i && #[trigger] out@[m].name@ == e[t].0,
                forall|t: int| 0 <= t < i ==> owner_names(out@).contains(#[trigger] e[t].0),
            decreases self.collections.len() - i,
        {
            proof {
                lemma_as_map(e);
            }
            let name = &self.collections[i].0;
            let ghost k = e[i as int].0;
            assert(k == name@);
            let mut j: usize = 0;
            while j < out.len() && name_lt_exec(out[j].name.as_str(), name.as_str())
                invariant
                    j <= out.len(),
                    forall|m: int| 0 <= m < j ==> name_lt(#[trigger] out@[m].name@, name@),
                decreases out.len() - j,
            {
                j = j + 1;
            }
            proof {
                assert forall|m: int| 0 <= m < out.len() implies out@[m].name@ != k by {
                    let t = choose|t: int| 0 <= t < i && out@[m].name@ == e[t].0;
                    assert(e[t].0 != e[i as int].0);
                }
                if j < out.len() {
                    lemma_name_lt_total(out@[j as int].name@, name@);
                }
            }
            let entry = CollectionOwner { name: name.clone(), owner: self.collections[i].1.to_string() };
            let ghost before = out@;
            out.insert(j, entry);
            proof {
                assert(out@ == before.insert(j as int, entry));
                assert forall|a: int, b: int| 0 <= a < b < out.len() implies name_lt(#[trigger] out@[a].name@, #[trigger] out@[b].name@) by {
                    if b < j {
                        assert(out@[a] == before[a] && out@[b] == before[b]);
                    } else if b == j {
                        assert(out@[a] == before[a]);
                    } else if a == j {
                        assert(out@[b] == before[b - 1]);
                        if b - 1 > j {
                            assert(name_lt(before[j as int].name@, before[b - 1].name@));
                            lemma_name_lt_trans(name@, before[j as int].name@, before[b - 1].name@);
                        }
                    } else if a < j {
                        assert(out@[a] == before[a] && out@[b] == before[b - 1]);
                    } else {
                        assert(out@[a] == before[a - 1] && out@[b] == before[b - 1]);
                    }
                }
                assert(self@.collections.contains_key(e[i as int].0));
                assert forall|m: int| 0 <= m < out.len() implies exists|t: int| 0 <= t < i + 1 && #[trigger] out@[m].name@ == e[t].0 by {
                    if m < j {
                        assert(out@[m] == before[m]);
                    } else if m == j {
                        assert(out@[m].name@ == e[i as int].0);
                    } else {
                        assert(out@[m] == before[m - 1]);
                    }
                }
                assert forall|t: int| 0 <= t < i + 1 implies owner_names(out@).contains(#[trigger] e[t].0) by {
                    if t == i {
                        assert(owner_names(out@)[j as int] == e[t].0);
                    } else {
                        assert(owner_names(before).contains(e[t].0));
                        let m = choose|m: int| 0 <= m < owner_names(before).len() && owner_names(before)[m] == e[t].0;
                        if m < j {
                            assert(owner_names(out@)[m] == e[t].0);
                        } else {
                            assert(owner_names(out@)[m + 1] == e[t].0);
                        }
                    }
                }
            }
            i = i + 1;
        }
        proof {
            assert forall|k: Seq<char>| #[trigger] self@.collections.contains_key(k) implies owner_names(out@).contains(k) by {
                let t = choose|t: int| 0 <= t < e.len() && e[t].0 == k;
            }
        }
        out
    }
}

fn pair_lt_exec(a: &str, b: &str, c: &str, d: &str) -> (r: bool)
    ensures
        r == pair_lt((a@, b@), (c@, d@)),
{
    name_lt_exec(a, c) || (same_text(a, c) && name_lt_exec(b, d))
}

impl Index {
    /// The external ids, each once, in increasing order of name and id.
    fn externals_sorted(&self) -> (v: Vec<ExternalId>)
        requires
            self.wf(),
        ensures
            shows_externals(v@, self@),
    {
        let ghost e = ext_entries(self.external@);
        proof {
            lemma_as_map(e);
        }
        let mut out: Vec<ExternalId> = Vec::new();
        let mut i: usize = 0;
        while i < self.external.len()
            invariant
                i <= self.external.len(),
                self.wf(),
                e == ext_entries(self.external@),
                forall|a: int, b: int|
                    0 <= a < b < out.len() ==> pair_lt(
                        (#[trigger] out@[a].key@, out@[a].value@),
                        (#[trigger] out@[b].key@, out@[b].value@),
                    ),
                forall|m: int|
                    0 <= m < out.len() ==> self@.external.contains_key((#[trigger] out@[m].key@, out@[m].value@))
                        && out@[m].ci@ == prefixed_text(ci_prefix(), self@.external[(out@[m].key@, out@[m].value@)]),
                forall|m: int|
                    0 <= m < out.len() ==> exists|t: int| 0 <= t < i && (#[trigger] out@[m].key@, out@[m].value@) == e[t].0,
                forall|t: int| 0 <= t < i ==> external_keys(out@).contains(#[trigger] e[t].0),
            decreases self.external.len() - i,
        {
            proof {
                lemma_as_map(e);
            }
            let key = &self.external[i].0.0;
            let value = &self.external[i].0.1;
            let ghost k = e[i as int].0;
            assert(k == (key@, value@));
            let mut j: usize = 0;
            while j < out.len() && pair_lt_exec(out[j].key.as_str(), out[j].value.as_str(), key.as_str(), value.as_str())
                invariant
                    j <= out.len(),
                    forall|m: int| 0 <= m < j ==> pair_lt((#[trigger] out@[m].key@, out@[m].value@), (key@, value@)),
                decreases out.len() - j,
            {
                j = j + 1;
            }
            proof {
                assert forall|m: int| 0 <= m < out.len() implies (out@[m].key@, out@[m].value@) != k by {
                    let t = choose|t: int| 0 <= t < i && (out@[m].key@, out@[m].value@) == e[t].0;
                    assert(e[t].0 != e[i as int].0);
                }
                if j < out.len() {
                    lemma_pair_lt_total((out@[j as int].key@, out@[j as int].value@), k);
                }
            }
            let entry = ExternalId { key: key.clone(), value: value.clone(), ci: self.external[i].1.to_string() };
            let ghost before = out@;
            out.insert(j, entry);
            proof {
                assert(out@ == before.insert(j as int, entry));
                assert forall|a: int, b: int| 0 <= a < b < out.len() implies pair_lt(
                    (#[trigger] out@[a].key@, out@[a].value@),
                    (#[trigger] out@[b].key@, out@[b].value@),
                ) by {
                    if b < j {
                        assert(out@[a] == before[a] && out@[b] == before[b]);
                    } else if b == j {
                        assert(out@[a] == before[a]);
                    } else if a == j {
                        assert(out@[b] == before[b - 1]);
                        if b - 1 > j {
                            assert(pair_lt(
                                (before[j as int].key@, before[j as int].value@),
                                (before[b - 1].key@, before[b - 1].value@),
                            ));
                            lemma_pair_lt_trans(
                                k,
                                (before[j as int].key@, before[j as int].value@),
                                (before[b - 1].key@, before[b - 1].value@),
                            );
                        }
                    } else if a < j {
                        assert(out@[a] == before[a] && out@[b] == before[b - 1]);
                    } else {
                        assert(out@[a] == before[a - 1] && out@[b] == before[b - 1]);
                    }
                }
                assert(self@.external.contains_key(e[i as int].0));
                assert forall|m: int| 0 <= m < out.len() implies exists|t: int|
                    0 <= t < i + 1 && (#[trigger] out@[m].key@, out@[m].value@) == e[t].0 by {
                    if m < j {
                        assert(out@[m] == before[m]);
                    } else if m == j {
                        assert((out@[m].key@, out@[m].value@) == e[i as int].0);
                    } else {
                        assert(out@[m] == before[m - 1]);
                    }
                }
                assert forall|t: int| 0 <= t < i + 1 implies external_keys(out@).contains(#[trigger] e[t].0) by {
                    if t == i {
                        assert(external_keys(out@)[j as int] == e[t].0);
                    } else {
                        assert(external_keys(before).contains(e[t].0));
                        let m = choose|m: int| 0 <= m < external_keys(before).len() && external_keys(before)[m] == e[t].0;
                        if m < j {
                            assert(external_keys(out@)[m] == e[t].0);
                        } else {
                            assert(external_keys(out@)[m + 1] == e[t].0);
                        }
                    }
                }
            }
            i = i + 1;
        }
        proof {
            assert forall|k: (Seq<char>, Seq<char>)| #[trigger] self@.external.contains_key(k) implies external_keys(out@).contains(k) by {
                let t = choose|t: int| 0 <= t < e.len() && e[t].0 == k;
            }
        }
        out
    }

    /// The identities with a kind, in increasing order of address.
    fn identities_sorted(&self, trust: &Trust) -> (v: Vec<IdentityEntry>)
        requires
            self.wf(),
        ensures
            v@.len() == sorted_set(self@.kinds.dom()).len(),
            forall|i: int|
                0 <= i < v@.len() ==> shows_identity(
                    #[trigger] v@[i],
                    self@,
                    sorted_set(self@.kinds.dom())[i],
                    *trust,
                ),
    {
        let ghost e = kind_entries(self.kinds@);
        proof {
            lemma_as_map(e);
        }
        let mut keys: Vec<BlobHash> = Vec::new();
        let mut i: usize = 0;
        assert(hash_views(keys@).to_set() =~= Set::<Seq<u8>>::empty());
        while i < self.kinds.len()
            invariant
                i <= self.kinds.len(),
                e == kind_entries(self.kinds@),
                increasing(hash_views(keys@)),
                hash_views(keys@).to_set() == Set::new(|k: Seq<u8>| exists|t: int| 0 <= t < i && e[t].0 == k),
            decreases self.kinds.len() - i,
        {
            insert_unique(&mut keys, self.kinds[i].0.0);
            assert(hash_views(keys@).to_set() =~= Set::new(
                |k: Seq<u8>| exists|t: int| 0 <= t < i + 1 && e[t].0 == k,
            )) by {
                assert(e[i as int].0 == self.kinds@[i as int].0.0@);
            }
            i = i + 1;
        }
        proof {
            assert(hash_views(keys@).to_set() =~= self@.kinds.dom());
            lemma_sorted_set(hash_views(keys@));
        }
        let mut out: Vec<IdentityEntry> = Vec::new();
        let mut j: usize = 0;
        while j < keys.len()
            invariant
                j <= keys.len(),
                self.wf(),
                hash_views(keys@) == sorted_set(self@.kinds.dom()),
                hash_views(keys@).to_set() == self@.kinds.dom(),
                out@.len() == j,
                forall|m: int| 0 <= m < j ==> shows_identity(#[trigger] out@[m], self@, hash_views(keys@)[m], *trust),
            decreases keys.len() - j,
        {
            let ghost ks = hash_views(keys@);
            assert(ks.to_set().contains(ks[j as int]));
            assert(ks[j as int] == keys@[j as int]@);
            out.push(self.identity_entry(CiHash(keys[j]), trust));
            j = j + 1;
        }
        out
    }

    /// The fold as `index` shows it under `trust`.
    pub fn view_under(&self, trust: &Trust) -> (v: IndexView)
        requires
            self.wf(),
        ensures
            shows_index(v, self@, *trust),
    {
        IndexView {
            collections: self.owners_sorted(),
            identities: self.identities_sorted(trust),
            externals: self.externals_sorted(),
        }
    }
}

/// An attestation folds in once: absorbing its blob a second time changes
/// nothing.
pub proof fn law_attestation_folds_in_once(ix: IndexV, hash: Seq<u8>, bytes: Seq<u8>)
    requires
        read_attestation(bytes) is Some,
    ensures
        absorbed(absorbed(ix, hash, bytes), hash, bytes) == absorbed(ix, hash, bytes),
{
    let a = read_attestation(bytes)->0;
    let held = list_at(ix.attestations, a.claim.ci);
    if !held.contains(a) {
        let once = absorbed(ix, hash, bytes);
        assert(list_at(once.attestations, a.claim.ci) == held.push(a));
        assert(held.push(a)[held.len() as int] == a);
    }
}

proof fn lemma_first_trusted(atts: Seq<AttestationV>, trust: Trust, at_least: TrustLevel)
    ensures
        first_trusted(atts, trust, at_least) matches Some(b) ==> exists|i: int|
            0 <= i < atts.len() && #[trigger] trusted_blob(atts[i], trust, at_least) == Some(b),
    decreases atts.len(),
{
    if atts.len() > 0 {
        lemma_first_trusted(atts.drop_first(), trust, at_least);
        if trusted_blob(atts[0], trust, at_least) is None {
            if first_trusted(atts, trust, at_least) is Some {
                let b = first_trusted(atts, trust, at_least)->0;
                let i = choose|i: int|
                    0 <= i < atts.drop_first().len() && #[trigger] trusted_blob(atts.drop_first()[i], trust, at_least)
                        == Some(b);
                assert(atts.drop_first()[i] == atts[i + 1]);
            }
        }
    }
}

/// An identity resolves only to the blob named by an attestation about it
/// whose signature is valid and whose signer is trusted at least as asked.
pub proof fn law_resolution_needs_a_trusted_signature(
    ix: IndexV,
    ci: Seq<u8>,
    trust: Trust,
    at_least: TrustLevel,
)
    ensures
        index_resolve(ix, ci, trust, at_least) matches Some(b) ==> exists|i: int|
            0 <= i < list_at(ix.attestations, ci).len() && (#[trigger] signer_of(
                list_at(ix.attestations, ci)[i],
            ) matches Some(d) && rank(trust.level_of(d)) >= rank(at_least)) && list_at(
                ix.attestations,
                ci,
            )[i].claim.blob == Some(b),
{
    let atts = list_at(ix.attestations, ci);
    lemma_first_trusted(atts, trust, at_least);
    if index_resolve(ix, ci, trust, at_least) is Some {
        let b = index_resolve(ix, ci, trust, at_least)->0;
        let i = choose|i: int| 0 <= i < atts.len() && #[trigger] trusted_blob(atts[i], trust, at_least) == Some(b);
        assert(signer_of(atts[i]) is Some);
    }
}

/// Whether the attestation `a` names a blob and is validly signed by a
/// group that `trust` trusts at least `at_least`.
pub open spec fn names_trusted_blob(a: AttestationV, trust: Trust, at_least: TrustLevel) -> bool {
    &&& signer_of(a) is Some
    &&& rank(trust.level_of(signer_of(a)->0)) >= rank(at_least)
    &&& a.claim.blob is Some
}

proof fn lemma_first_trusted_is_first(atts: Seq<AttestationV>, trust: Trust, at_least: TrustLevel)
    ensures
        match first_trusted(atts, trust, at_least) {
            Some(b) => exists|i: int|
                0 <= i < atts.len() && names_trusted_blob(#[trigger] atts[i], trust, at_least) && atts[i].claim.blob
                    == Some(b) && forall|j: int| 0 <= j < i ==> !names_trusted_blob(#[trigger] atts[j], trust, at_least),
            None => forall|i: int| 0 <= i < atts.len() ==> !names_trusted_blob(#[trigger] atts[i], trust, at_least),
        },
    decreases atts.len(),
{
    if atts.len() > 0 {
        let t = atts.drop_first();
        lemma_first_trusted_is_first(t, trust, at_least);
        if names_trusted_blob(atts[0], trust, at_least) {
            assert(trusted_blob(atts[0], trust, at_least) == atts[0].claim.blob);
        } else {
            assert(trusted_blob(atts[0], trust, at_least) is None);
            match first_trusted(t, trust, at_least) {
                Some(b) => {
                    let i = choose|i: int|
                        0 <= i < t.len() && names_trusted_blob(#[trigger] t[i], trust, at_least) && t[i].claim.blob
                            == Some(b) && forall|j: int| 0 <= j < i ==> !names_trusted_blob(#[trigger] t[j], trust, at_least);
                    assert(atts[i + 1] == t[i]);
                    assert forall|j: int| 0 <= j < i + 1 implies !names_trusted_blob(#[trigger] atts[j], trust, at_least) by {
                        if j > 0 {
                            assert(atts[j] == t[j - 1]);
                        }
                    }
                },
                None => {
                    assert forall|i: int| 0 <= i < atts.len() implies !names_trusted_blob(#[trigger] atts[i], trust, at_least) by {
                        if i > 0 {
                            assert(atts[i] == t[i - 1]);
                        }
                    }
                },
            }
        }
    }
}

/// Resolution through the fold is complete and takes the first: an
/// identity resolves exactly when some attestation about it names a blob
/// and is validly signed by a group trusted at least as asked, and then to
/// the blob of the first such attestation in the fold's order.
pub proof fn law_resolution_takes_the_first_trusted_blob(
    ix: IndexV,
    ci: Seq<u8>,
    trust: Trust,
    at_least: TrustLevel,
)
    ensures
        ({
            let atts = list_at(ix.attestations, ci);
            match index_resolve(ix, ci, trust, at_least) {
                Some(b) => exists|i: int|
                    0 <= i < atts.len() && names_trusted_blob(#[trigger] atts[i], trust, at_least) && atts[i].claim.blob
                        == Some(b) && forall|j: int|
                        0 <= j < i ==> !names_trusted_blob(#[trigger] atts[j], trust, at_least),
                None => forall|i: int| 0 <= i < atts.len() ==> !names_trusted_blob(#[trigger] atts[i], trust, at_least),
            }
        }),
{
    lemma_first_trusted_is_first(list_at(ix.attestations, ci), trust, at_least);
}

} // verus!
