//! Locking a transform to exact inputs and running it: resolution of its
//! inputs through the fold and trust, fetching what it names by URL, and
//! attesting what a run produced.
use vstd::prelude::*;
use crate::address::{CiHash, TdHash, BlobRef, td_prefix, prefixed_text};
use crate::canonical::{canonical_bytes, lex_le};
use crate::cbor::{Value, Data, data_pairs, lemma_data_pairs};
use crate::fields::get;
use crate::hex::hex_of;
use crate::index::{Index, IndexV, list_at, copy_attestation, name_lt, name_lt_exec, kind_entries};
use crate::record::{
    Attestation, AttestationV, Cir, Claim, ClaimKind, ClaimV, Tdr, RecordV, CIR_KIND, TDR_KIND, read_record, record_data,
    signer_of, canon_ok, same_text, attestation_data, signed_attestation, text_fits, text_fits_str, entry_ok, lemma_table_ok,
};
use crate::identity::Identity;
use crate::routing::{
    Found, Policy, Candidate, signer_level, lemma_pick_is_eligible, tdr_view, made, ranked, first_eligible, resolution_of,
    default_policy, found_eligible,
};
use crate::sorted::hash_lt;
use crate::store::{BlobHash, MemBlobs, blake3_digest};
use crate::trust::{Trust, TrustLevel, rank, lex_lt};
use crate::transform::{
    Fetcher, TransformRunner, RunReply, RunRequest, MAX_ROUNDS, WASM_TRANSFORM, Input, InputV, HTTP_GET, inputs, input_map, declared_of, body_text, input_views, input_names,
    put_input, lemma_inputs_unique, with_fields, body_with, extra_views, locked_spec, is_locked, module_error,
    module_blob, loose_blob, read_loose_blob, lemma_pinned_ok,
    lemma_body_with_ok, input_data,
};
use crate::assoc::{as_map, unique_keys, lemma_as_map};
use crate::mesh::names_increasing;
use crate::text::{concat, owned};

verus! {

/// Whether a claim that expires at `expires` has expired at `now`: times are
/// RFC 3339 texts in UTC, which sort as the times do.
pub open spec fn expired_at(expires: Option<Seq<char>>, now: Seq<char>) -> bool {
    expires matches Some(e) && name_lt(e, now)
}

pub fn expired(expires: &Option<String>, now: &str) -> (r: bool)
    ensures
        r == expired_at(
            match expires {
                Some(e) => Some(e@),
                None => None,
            },
            now@,
        ),
{
    match expires {
        Some(e) => name_lt_exec(e.as_str(), now),
        None => false,
    }
}

/// What the store says of the attestation `a` at `now`, as `f` records it:
/// its transform if the store holds one that decodes, whether its blob is
/// held, and whether its claim has expired.
pub open spec fn found_of(store: MemBlobs, a: AttestationV, now: Seq<char>, f: Found) -> bool {
    &&& f.attestation@ == a
    &&& f.expired == expired_at(a.claim.expires, now)
    &&& f.held == (a.claim.blob matches Some(b) && store.held(b) is Some)
    &&& tdr_view(f.tdr) == match a.claim.td {
        Some(td) => match store.held(td) {
            Some(bytes) => read_record(bytes, TDR_KIND@),
            None => None,
        },
        None => None,
    }
}

/// `found` is what the store says of each attestation the fold holds about `ci`.
pub open spec fn found_in(store: MemBlobs, ix: IndexV, ci: Seq<u8>, now: Seq<char>, found: Seq<Found>) -> bool {
    &&& found.len() == list_at(ix.attestations, ci).len()
    &&& forall|j: int| 0 <= j < found.len() ==> found_of(store, list_at(ix.attestations, ci)[j], now, #[trigger] found[j])
}

/// The attestations the fold holds about `ci`, each with its transform as
/// the store holds it, whether its blob is held, and whether it has expired.
pub fn found_for(store: &MemBlobs, index: &Index, ci: CiHash, now: &str) -> (r: Vec<Found>)
    requires
        index.wf(),
    ensures
        found_in(*store, index@, ci.0@, now@, r@),
{
    let atts = index.attestations_for(ci);
    let ghost all = crate::index::att_views(atts@);
    let mut out: Vec<Found> = Vec::new();
    let mut i: usize = 0;
    while i < atts.len()
        invariant
            i <= atts.len(),
            all == crate::index::att_views(atts@),
            all == list_at(index@.attestations, ci.0@),
            out@.len() == i,
            forall|j: int| 0 <= j < i ==> found_of(*store, all[j], now@, #[trigger] out@[j]),
        decreases atts.len() - i,
    {
        let a = &atts[i];
        let tdr = match a.claim.td {
            Some(td) => match store.get(td.0) {
                Ok(bytes) => match Tdr::decode(bytes.as_slice()) {
                    Ok(t) => Some(t),
                    Err(_) => None,
                },
                Err(_) => None,
            },
            None => None,
        };
        let held = match a.claim.blob {
            Some(b) => store.has(b.0),
            None => false,
        };
        let gone = expired(&a.claim.expires, now);
        let f = Found { attestation: copy_attestation(a), tdr, held, expired: gone };
        proof {
            assert(all[i as int] == a@);
        }
        out.push(f);
        i = i + 1;
    }
    out
}

/// Whether `b` is an artifact of `ci` that resolution may pick: the blob of
/// a content claim about `ci` in the fold, signed by a group trusted at
/// least as a cache, that has not expired at `now`.
pub open spec fn eligible_artifact(ix: IndexV, trust: Trust, ci: Seq<u8>, b: Seq<u8>, now: Seq<char>) -> bool {
    exists|j: int|
        0 <= j < list_at(ix.attestations, ci).len() && {
            let a = #[trigger] list_at(ix.attestations, ci)[j];
            &&& a.claim.kind == ClaimKind::Content
            &&& a.claim.blob == Some(b)
            &&& signer_of(a) is Some
            &&& rank(signer_level(trust, signer_of(a))) >= rank(TrustLevel::Cache)
            &&& !expired_at(a.claim.expires, now)
        }
}

/// The artifact that trusted resolution picks for `ci`, under the default
/// policy: the best ranked eligible candidate that the fold's attestations
/// make, as the store finds them at `now`. It picks one exactly when some
/// artifact of `ci` is eligible.
pub fn resolve_in(store: &MemBlobs, index: &Index, trust: &Trust, ci: CiHash, now: &str) -> (r: Option<BlobHash>)
    requires
        index.wf(),
    ensures
        exists|found: Seq<Found>, made_list: Seq<Candidate>|
            #![trigger found_in(*store, index@, ci.0@, now@, found), made(*trust, default_policy(), found, made_list)]
            found_in(*store, index@, ci.0@, now@, found) && made(*trust, default_policy(), found, made_list)
                && r == match first_eligible(ranked(made_list, default_policy())) {
                Some(c) => Some(c.blob),
                None => None,
            },
        r is Some <==> exists|b: Seq<u8>| eligible_artifact(index@, *trust, ci.0@, b, now@),
        r matches Some(b) ==> eligible_artifact(index@, *trust, ci.0@, b@, now@),
{
    let found = found_for(store, index, ci, now);
    let policy = Policy::default();
    let res = crate::routing::resolve(trust, policy, &found);
    let ghost made_list = choose|made_list: Seq<Candidate>|
        made(*trust, policy, found@, made_list) && res == resolution_of(first_eligible(ranked(made_list, policy)));
    proof {
        lemma_pick_is_eligible(*trust, policy, found@, made_list);
        let ghost atts = list_at(index@.attestations, ci.0@);
        if res is Some {
            let c = first_eligible(ranked(made_list, policy))->0;
            let j = choose|j: int|
                0 <= j < found@.len() && found_eligible(*trust, policy, #[trigger] found@[j])
                    && found@[j].attestation@.claim.blob == Some(c.blob@);
            assert(found_of(*store, atts[j], now@, found@[j]));
            assert(eligible_artifact(index@, *trust, ci.0@, c.blob@, now@));
        }
        assert forall|b: Seq<u8>| eligible_artifact(index@, *trust, ci.0@, b, now@) implies res is Some by {
            let j = choose|j: int|
                0 <= j < atts.len() && {
                    let a = #[trigger] atts[j];
                    &&& a.claim.kind == ClaimKind::Content
                    &&& a.claim.blob == Some(b)
                    &&& signer_of(a) is Some
                    &&& rank(signer_level(*trust, signer_of(a))) >= rank(TrustLevel::Cache)
                    &&& !expired_at(a.claim.expires, now@)
                };
            assert(found_of(*store, atts[j], now@, found@[j]));
            assert(found_eligible(*trust, policy, found@[j]));
        }
    }
    match res {
        Some(x) => Some(x.blob),
        None => None,
    }
}

/// Whether a record body has an entry `name` holding the text `n`.
pub open spec fn named(body: Data, n: Seq<char>) -> bool {
    match body {
        Data::Table(e) => exists|i: int|
            #![trigger e[i]]
            0 <= i < e.len() && e[i].0 == Data::Text("name"@) && e[i].1 == Data::Text(n),
        _ => false,
    }
}

/// Whether the identity `k` of the fold is of `kind` and its CIR, as the
/// store holds it, is named `name`.
pub open spec fn query_match(store: MemBlobs, ix: IndexV, kind: Seq<char>, name: Seq<char>, k: Seq<u8>) -> bool {
    &&& ix.kinds.contains_key(k)
    &&& ix.kinds[k] == kind
    &&& store.held(k) matches Some(bytes)
    &&& read_record(bytes, CIR_KIND@) matches Some(c)
    &&& named(c.body, name)
}

fn has_name(body: &Value, name: &str) -> (r: bool)
    ensures
        r == named(body@, name@),
{
    match body {
        Value::Table(e) => {
            let ghost d = data_pairs(e@);
            proof {
                lemma_data_pairs(e@);
            }
            assert(body@ == Data::Table(d));
            let mut i: usize = 0;
            while i < e.len()
                invariant
                    i <= e.len(),
                    body@ == Data::Table(d),
                    d == data_pairs(e@),
                    d.len() == e.len(),
                    forall|j: int| 0 <= j < e.len() ==> #[trigger] d[j] == (e@[j].0@, e@[j].1@),
                    forall|j: int| 0 <= j < i ==> !(d[j].0 == Data::Text("name"@) && d[j].1 == Data::Text(name@)),
                decreases e.len() - i,
            {
                match (&e[i].0, &e[i].1) {
                    (Value::Text(k), Value::Text(t)) => {
                        if same_text(k.as_str(), "name") && same_text(t.as_str(), name) {
                            assert(d[i as int] == (Data::Text("name"@), Data::Text(name@)));
                            assert(d[i as int].0 == Data::Text("name"@) && d[i as int].1 == Data::Text(name@));
                            assert(body@ == Data::Table(d));
                            return true;
                        }
                    },
                    _ => {},
                }
                i = i + 1;
            }
            false
        },
        _ => false,
    }
}

/// The least identity, by address, of `kind` named `name`.
pub fn find_by_query(store: &MemBlobs, index: &Index, kind: &str, name: &str) -> (r: Option<CiHash>)
    requires
        index.wf(),
    ensures
        match r {
            Some(c) => query_match(*store, index@, kind@, name@, c.0@) && forall|k: Seq<u8>|
                #[trigger] query_match(*store, index@, kind@, name@, k) ==> lex_le(c.0@, k),
            None => forall|k: Seq<u8>| !#[trigger] query_match(*store, index@, kind@, name@, k),
        },
{
    let cis = index.cis();
    let ghost e = kind_entries(cis@);
    proof {
        crate::assoc::lemma_as_map(e);
    }
    let mut best: Option<CiHash> = None;
    let mut i: usize = 0;
    while i < cis.len()
        invariant
            i <= cis.len(),
            e == kind_entries(cis@),
            crate::assoc::unique_keys(e),
            crate::assoc::as_map(e) == index@.kinds,
            match best {
                Some(c) => query_match(*store, index@, kind@, name@, c.0@) && forall|j: int|
                    0 <= j < i && #[trigger] query_match(*store, index@, kind@, name@, e[j].0) ==> lex_le(c.0@, e[j].0),
                None => forall|j: int| 0 <= j < i ==> !#[trigger] query_match(*store, index@, kind@, name@, e[j].0),
            },
        decreases cis.len() - i,
    {
        proof {
            crate::assoc::lemma_as_map(e);
        }
        let ci = cis[i].0;
        assert(e[i as int].0 == ci.0@);
        let mut hit = false;
        if same_text(cis[i].1.as_str(), kind) {
            match store.get(ci.0) {
                Ok(bytes) => match Cir::decode(bytes.as_slice()) {
                    Ok(c) => {
                        hit = has_name(&c.body, name);
                    },
                    Err(_) => {},
                },
                Err(_) => {},
            }
        }
        assert(hit == query_match(*store, index@, kind@, name@, e[i as int].0));
        if hit {
            let better = match best {
                Some(b) => hash_lt(&ci.0, &b.0),
                None => true,
            };
            proof {
                crate::canonical::lemma_lex_total(ci.0@, e[i as int].0);
                if let Some(b) = best {
                    crate::canonical::lemma_lex_total(b.0@, ci.0@);
                    if better {
                        assert forall|j: int| 0 <= j < i + 1 && #[trigger] query_match(*store, index@, kind@, name@, e[j].0) implies lex_le(ci.0@, e[j].0) by {
                            if j < i {
                                crate::canonical::lemma_lex_trans(ci.0@, b.0@, e[j].0);
                            }
                        }
                    }
                }
            }
            if better {
                best = Some(ci);
            }
        }
        i = i + 1;
    }
    proof {
        assert forall|k: Seq<u8>| #[trigger] query_match(*store, index@, kind@, name@, k) implies exists|j: int|
            0 <= j < e.len() && e[j].0 == k by {
        }
    }
    best
}

/// A transform locked to exact inputs: its address, the locked record, and
/// how many inputs were fetched by URL to lock it.
#[derive(Debug)]
pub struct Locked {
    pub td: TdHash,
    pub tdr: Tdr,
    pub fetched: usize,
}

/// What a transform is locked over: the inputs it declares, and for an
/// `http-get` that declares no `url` input, the URL its body names.
pub open spec fn lock_plan(t: RecordV) -> Map<Seq<char>, InputV> {
    let m = input_map(declared_of(t.body));
    if t.kind == HTTP_GET@ && !m.contains_key("url"@) && body_text(t.body, "url"@) is Some {
        m.insert("url"@, InputV::Url(body_text(t.body, "url"@)->0))
    } else {
        m
    }
}

/// The names of a list of named inputs.
pub open spec fn keys(s: Seq<(Seq<char>, InputV)>) -> Seq<Seq<char>> {
    Seq::new(s.len(), |i: int| s[i].0)
}

/// How many of the inputs are URLs to fetch.
pub open spec fn url_count(s: Seq<(Seq<char>, InputV)>) -> nat
    decreases s.len(),
{
    if s.len() == 0 {
        0
    } else {
        url_count(s.drop_last()) + if s.last().1 is Url {
            1nat
        } else {
            0nat
        }
    }
}

/// Whether `pin` is what locking makes of the planned input `plan`: a pinned
/// input stays; an identity is pinned to an artifact resolution may pick; a
/// query to such an artifact of the least identity that matches it, none of
/// those the store held before being less; a URL to the blob fetched from
/// it, which the store then holds.
pub open spec fn pin_ok(
    plan: InputV,
    pin: InputV,
    before: MemBlobs,
    after: MemBlobs,
    ix: IndexV,
    trust: Trust,
    now: Seq<char>,
) -> bool {
    match plan {
        InputV::Pinned { .. } => pin == plan,
        InputV::Ci(c) => match pin {
            InputV::Pinned { ci, url, blob } => ci == Some(c) && url is None && eligible_artifact(ix, trust, c, blob, now),
            _ => false,
        },
        InputV::Query { kind, name } => match pin {
            InputV::Pinned { ci, url, blob } => match ci {
                Some(c) => {
                    &&& url is None
                    &&& query_match(after, ix, kind, name, c)
                    &&& forall|k: Seq<u8>| #[trigger] query_match(before, ix, kind, name, k) ==> lex_le(c, k)
                    &&& eligible_artifact(ix, trust, c, blob, now)
                },
                None => false,
            },
            _ => false,
        },
        InputV::Url(u) => match pin {
            InputV::Pinned { ci, url, blob } => ci is None && url == Some(u) && after.held(blob) is Some,
            _ => false,
        },
    }
}

/// Whether `pins` is what locking makes of `t` over the stores `before` and
/// `after`: `plan` is what `t` is locked over, in name order, and each pin
/// is what locking makes of the planned input of its name.
pub open spec fn pinned_as(
    t: RecordV,
    plan: Seq<(Seq<char>, InputV)>,
    pins: Seq<(Seq<char>, InputV)>,
    before: MemBlobs,
    after: MemBlobs,
    ix: IndexV,
    trust: Trust,
    now: Seq<char>,
) -> bool {
    &&& names_increasing(keys(plan))
    &&& unique_keys(plan)
    &&& as_map(plan) == lock_plan(t)
    &&& pins.len() == plan.len()
    &&& forall|i: int|
        0 <= i < plan.len() ==> #[trigger] pins[i].0 == plan[i].0 && pin_ok(
            plan[i].1,
            pins[i].1,
            before,
            after,
            ix,
            trust,
            now,
        )
}

/// The locked record: `t` with its inputs pinned as `pins` and the fields
/// locking sets at `now`.
pub open spec fn locked_view(t: RecordV, pins: Seq<(Seq<char>, InputV)>, now: Seq<char>) -> RecordV {
    RecordV { record: t.record, kind: t.kind, body: body_with(t.body, pins, lock_extra(t, now)) }
}

/// Whether the query for a `kind` named `name` picks, in `store`, an
/// identity that resolution may pick an artifact of: the least that matches
/// has one.
pub open spec fn query_picks(
    store: MemBlobs,
    ix: IndexV,
    trust: Trust,
    now: Seq<char>,
    kind: Seq<char>,
    name: Seq<char>,
) -> bool {
    exists|c: Seq<u8>|
        #[trigger] query_match(store, ix, kind, name, c) && (forall|k: Seq<u8>|
            #[trigger] query_match(store, ix, kind, name, k) ==> lex_le(c, k)) && exists|b: Seq<u8>|
            eligible_artifact(ix, trust, c, b, now)
}

/// Whether every input of `plan` can be pinned without fetching: none is a
/// URL, every identity has an artifact resolution may pick, and every query
/// picks one in `store`.
pub open spec fn pins_owed(plan: Map<Seq<char>, InputV>, store: MemBlobs, ix: IndexV, trust: Trust, now: Seq<char>) -> bool {
    forall|n: Seq<char>|
        #[trigger] plan.contains_key(n) ==> match plan[n] {
            InputV::Url(_) => false,
            InputV::Ci(c) => exists|b: Seq<u8>| eligible_artifact(ix, trust, c, b, now),
            InputV::Query { kind, name } => query_picks(store, ix, trust, now, kind, name),
            InputV::Pinned { .. } => true,
        }
}

/// Whether the input `v` can be pinned at all: an identity needs an artifact
/// resolution may pick, a query an identity in `store` with one, a URL a
/// fetcher.
pub open spec fn pin_possible(v: InputV, store: MemBlobs, ix: IndexV, trust: Trust, now: Seq<char>, fetching: bool) -> bool {
    match v {
        InputV::Ci(c) => exists|b: Seq<u8>| eligible_artifact(ix, trust, c, b, now),
        InputV::Query { kind, name } => exists|c: Seq<u8>, b: Seq<u8>|
            #![trigger query_match(store, ix, kind, name, c), eligible_artifact(ix, trust, c, b, now)]
            query_match(store, ix, kind, name, c) && eligible_artifact(ix, trust, c, b, now),
        InputV::Url(_) => fetching,
        InputV::Pinned { .. } => true,
    }
}

/// The fields locking sets: the address of the unlocked transform, and the
/// time of locking unless the transform names its snapshot.
pub open spec fn lock_extra(t: RecordV, now: Seq<char>) -> Seq<(Seq<char>, Seq<char>)> {
    seq![("derived_from"@, prefixed_text(td_prefix(), blake3_digest(canonical_bytes(record_data(t)))))]
        + if body_text(t.body, "snapshot"@) is None {
        seq![("snapshot"@, now)]
    } else {
        Seq::empty()
    }
}

/// Blobs the store held before are held still, unchanged.
pub open spec fn keeps(before: MemBlobs, after: MemBlobs) -> bool {
    forall|k: Seq<u8>| #[trigger] before.held(k) is Some ==> after.held(k) == before.held(k)
}

fn put_kept(store: &mut MemBlobs, bytes: &[u8]) -> (h: BlobHash)
    ensures
        h@ == blake3_digest(bytes@),
        final(store).held(h@) is Some,
        keeps(*old(store), *final(store)),
{
    let h = match store.put(bytes) {
        Ok(h) => h,
        Err(_) => BlobHash::of(bytes),
    };
    h
}

proof fn lemma_query_grows(a: MemBlobs, b: MemBlobs, ix: IndexV, kind: Seq<char>, name: Seq<char>)
    requires
        keeps(a, b),
    ensures
        forall|k: Seq<u8>| #[trigger] query_match(a, ix, kind, name, k) ==> query_match(b, ix, kind, name, k),
{
    assert forall|k: Seq<u8>| #[trigger] query_match(a, ix, kind, name, k) implies query_match(b, ix, kind, name, k) by {
        assert(a.held(k) is Some);
    }
}

proof fn lemma_keeps_trans(a: MemBlobs, b: MemBlobs, c: MemBlobs)
    requires
        keeps(a, b),
        keeps(b, c),
    ensures
        keeps(a, c),
{
    assert forall|k: Seq<u8>| #[trigger] a.held(k) is Some implies c.held(k) == a.held(k) by {
        assert(b.held(k) is Some);
    }
}

proof fn lemma_pin_kept(
    plan: InputV,
    pin: InputV,
    before: MemBlobs,
    mid: MemBlobs,
    after: MemBlobs,
    ix: IndexV,
    trust: Trust,
    now: Seq<char>,
)
    requires
        pin_ok(plan, pin, before, mid, ix, trust, now),
        keeps(mid, after),
    ensures
        pin_ok(plan, pin, before, after, ix, trust, now),
{
    match plan {
        InputV::Query { kind, name } => {
            lemma_query_grows(mid, after, ix, kind, name);
        },
        InputV::Url(u) => {
            if let InputV::Pinned { blob, .. } = pin {
                assert(mid.held(blob) is Some);
            }
        },
        _ => {},
    }
}

fn input_message(name: &str, rest: &str) -> (m: String) {
    let q = crate::ops::quoted(name);
    let head = concat("input ", q.as_str());
    concat(head.as_str(), rest)
}

/// Locks `tdr`: stores it, pins each input it is locked over in name order,
/// and stores the locked transform, which records where it was derived
/// from and when. Identities are resolved through the fold under `trust`,
/// queries picked from the fold, and URLs fetched with `fetcher`. It fails
/// on an input that cannot be pinned, and succeeds for a canonical transform
/// whose inputs can all be pinned without fetching; what a fetch answers is
/// the fetcher's.
#[verifier::spinoff_prover]
#[verifier::rlimit(60)]
pub fn lock<F: Fetcher>(
    store: &mut MemBlobs,
    index: &Index,
    trust: &Trust,
    fetcher: Option<&F>,
    tdr: &Tdr,
    now: &str,
) -> (r: Result<Locked, String>)
    requires
        index.wf(),
    ensures
        keeps(*old(store), *final(store)),
        !canon_ok(record_data(tdr@)) ==> r is Err && *final(store) == *old(store),
        (exists|n: Seq<char>|
            #[trigger] lock_plan(tdr@).contains_key(n) && !pin_possible(
                lock_plan(tdr@)[n],
                *final(store),
                index@,
                *trust,
                now@,
                fetcher is Some,
            )) ==> r is Err,
        canon_ok(record_data(tdr@)) && pins_owed(lock_plan(tdr@), *final(store), index@, *trust, now@) ==> r is Ok,
        r matches Ok(l) ==> {
            &&& canon_ok(record_data(tdr@))
            &&& canon_ok(record_data(l.tdr@))
            &&& l.td.0@ == blake3_digest(canonical_bytes(record_data(l.tdr@)))
            &&& final(store).held(l.td.0@) is Some
            &&& exists|plan: Seq<(Seq<char>, InputV)>, pins: Seq<(Seq<char>, InputV)>|
                {
                    &&& pinned_as(tdr@, plan, pins, *old(store), *final(store), index@, *trust, now@)
                    &&& l.tdr@ == locked_view(tdr@, pins, now@)
                    &&& l.fetched == url_count(plan)
                    &&& (fetcher is None ==> forall|i: int| 0 <= i < plan.len() ==> !(plan[i].1 is Url))
                }
        },
{
    let unlocked = match tdr.address() {
        Ok(a) => a,
        Err(e) => return Err(e.to_string()),
    };
    let bytes = match tdr.encode() {
        Ok(b) => b,
        Err(e) => return Err(e.to_string()),
    };
    let ghost start = *store;
    put_kept(store, bytes.as_slice());
    assert(keeps(start, start));
    let mut declared = inputs(tdr);
    proof {
        lemma_inputs_unique(declared@);
        lemma_as_map(input_views(declared@));
    }
    let mut has_url = false;
    let mut k: usize = 0;
    while k < declared.len()
        invariant
            k <= declared.len(),
            has_url == exists|j: int| 0 <= j < k && #[trigger] input_views(declared@)[j].0 == "url"@,
        decreases declared.len() - k,
    {
        if same_text(declared[k].0.as_str(), "url") {
            assert(input_views(declared@)[k as int].0 == "url"@);
            has_url = true;
        }
        k = k + 1;
    }
    proof {
        if as_map(input_views(declared@)).contains_key("url"@) {
            let j = choose|j: int| 0 <= j < input_views(declared@).len() && input_views(declared@)[j].0 == "url"@;
            assert(input_views(declared@)[j].0 == "url"@);
        }
    }
    if same_text(tdr.kind.as_str(), HTTP_GET) && !has_url {
        match crate::routing::text_field(tdr, "url") {
            Some(u) => put_input(&mut declared, owned("url"), Input::Url(u)),
            None => {},
        }
    }
    let ghost plan = input_views(declared@);
    proof {
        lemma_inputs_unique(declared@);
        assert(keys(plan) =~= input_names(declared@));
        assert(as_map(plan) == lock_plan(tdr@));
    }
    let ghost mid = *store;
    let mut pinned: Vec<(String, Input)> = Vec::new();
    let mut fetched: usize = 0;
    let mut i: usize = 0;
    assert(plan.take(0) =~= Seq::<(Seq<char>, InputV)>::empty());
    while i < declared.len()
        invariant
            i <= declared.len(),
            index.wf(),
            plan == input_views(declared@),
            as_map(plan) == lock_plan(tdr@),
            unique_keys(plan),
            names_increasing(keys(plan)),
            start == *old(store),
            canon_ok(record_data(tdr@)),
            keeps(start, *store),
            keeps(start, mid),
            keeps(mid, *store),
            pinned@.len() == i,
            fetched as nat == url_count(plan.take(i as int)),
            fetched <= i,
            forall|j: int|
                #![trigger input_views(pinned@)[j]]
                0 <= j < i ==> input_views(pinned@)[j].0 == plan[j].0 && pin_ok(
                    plan[j].1,
                    input_views(pinned@)[j].1,
                    start,
                    *store,
                    index@,
                    *trust,
                    now@,
                ),
            fetcher is None ==> forall|j: int| 0 <= j < i ==> !(plan[j].1 is Url),
            forall|j: int|
                0 <= j < i ==> text_fits((#[trigger] input_views(pinned@)[j]).0) && canon_ok(
                    input_data(input_views(pinned@)[j].1),
                ),
        decreases declared.len() - i,
    {
        let ghost here = *store;
        let name = &declared[i].0;
        assert(plan[i as int] == (name@, declared@[i as int].1@));
        proof {
            crate::assoc::lemma_as_map(plan);
            assert(lock_plan(tdr@).contains_key(plan[i as int].0));
        }
        let resolved = match &declared[i].1 {
            Input::Pinned { .. } => declared[i].1.copy(),
            Input::Ci(ci) => match resolve_in(store, index, trust, *ci, now) {
                Some(b) => Input::Pinned { ci: Some(*ci), url: None, blob: b },
                None => {
                    let rest = concat(": nothing trusted resolves ", ci.to_string().as_str());
                    return Err(input_message(name.as_str(), rest.as_str()));
                },
            },
            Input::Query { kind, name: wanted } => {
                let c = match find_by_query(store, index, kind.as_str(), wanted.as_str()) {
                    Some(c) => c,
                    None => {
                        let a = concat(": no ", kind.as_str());
                        let b = concat(a.as_str(), " named ");
                        let c = concat(b.as_str(), crate::ops::quoted(wanted.as_str()).as_str());
                        let d = concat(c.as_str(), " in the index");
                        return Err(input_message(name.as_str(), d.as_str()));
                    },
                };
                proof {
                    lemma_keeps_trans(start, mid, *store);
                    lemma_query_grows(start, *store, index@, kind@, wanted@);
                }
                match resolve_in(store, index, trust, c, now) {
                    Some(b) => Input::Pinned { ci: Some(c), url: None, blob: b },
                    None => {
                        proof {
                            if pins_owed(lock_plan(tdr@), *store, index@, *trust, now@) {
                                assert(query_picks(*store, index@, *trust, now@, kind@, wanted@));
                                let c2 = choose|c2: Seq<u8>|
                                    #[trigger] query_match(*store, index@, kind@, wanted@, c2) && (forall|k: Seq<u8>|
                                        #[trigger] query_match(*store, index@, kind@, wanted@, k) ==> lex_le(c2, k))
                                        && exists|b: Seq<u8>| eligible_artifact(index@, *trust, c2, b, now@);
                                crate::canonical::lemma_lex_antisym(c.0@, c2);
                            }
                        }
                        let rest = concat(": nothing trusted resolves ", c.to_string().as_str());
                        return Err(input_message(name.as_str(), rest.as_str()));
                    },
                }
            },
            Input::Url(u) => {
                let f = match fetcher {
                    Some(f) => f,
                    None => return Err(input_message(name.as_str(), " is a url and no fetcher is registered on this node")),
                };
                let got = match f.get(u.as_str()) {
                    Ok(b) => b,
                    Err(e) => return Err(e),
                };
                let b = put_kept(store, got.as_slice());
                proof {
                    lemma_keeps_trans(start, here, *store);
                    lemma_keeps_trans(mid, here, *store);
                }
                fetched = fetched + 1;
                Input::Pinned { ci: None, url: Some(u.clone()), blob: b }
            },
        };
        text_fits_str(name.as_str());
        match &resolved {
            Input::Pinned { ci, url, blob } => {
                match url {
                    Some(u) => text_fits_str(u.as_str()),
                    None => {},
                }
                proof {
                    crate::store::lemma_hash_len(*blob);
                    if let Some(c) = ci {
                        crate::store::lemma_hash_len(c.0);
                    }
                    lemma_pinned_ok(
                        match ci {
                            Some(c) => Some(c.0@),
                            None => None,
                        },
                        match url {
                            Some(u) => Some(u@),
                            None => None,
                        },
                        blob@,
                    );
                }
            },
            _ => {},
        }
        let ghost before_push = input_views(pinned@);
        pinned.push((name.clone(), resolved));
        proof {
            assert(input_views(pinned@) =~= before_push.push((name@, resolved@)));
            assert(plan.take(i + 1).drop_last() =~= plan.take(i as int));
            assert(plan.take(i + 1).last() == plan[i as int]);
            assert(pin_ok(plan[i as int].1, resolved@, start, *store, index@, *trust, now@));
            assert forall|j: int|
                #![trigger input_views(pinned@)[j]]
                0 <= j < i + 1 implies input_views(pinned@)[j].0 == plan[j].0 && pin_ok(
                plan[j].1,
                input_views(pinned@)[j].1,
                start,
                *store,
                index@,
                *trust,
                now@,
            ) by {
                if j < i {
                    assert(input_views(pinned@)[j] == before_push[j]);
                    lemma_pin_kept(plan[j].1, before_push[j].1, start, here, *store, index@, *trust, now@);
                }
            }
        }
        i = i + 1;
    }
    assert(plan.take(i as int) =~= plan);
    let mut extra: Vec<(String, String)> = Vec::new();
    extra.push((owned("derived_from"), unlocked.to_string()));
    match crate::routing::text_field(tdr, "snapshot") {
        Some(_) => {},
        None => extra.push((owned("snapshot"), owned(now))),
    }
    let mut x: usize = 0;
    while x < extra.len()
        invariant
            x <= extra.len(),
            forall|m: int| 0 <= m < x ==> text_fits((#[trigger] extra@[m]).0@) && text_fits(extra@[m].1@),
        decreases extra.len() - x,
    {
        text_fits_str(extra[x].0.as_str());
        text_fits_str(extra[x].1.as_str());
        x = x + 1;
    }
    let locked = with_fields(tdr, &pinned, &extra);
    assert(extra_views(extra@) =~= lock_extra(tdr@, now@));
    proof {
        assert(pinned_as(tdr@, plan, input_views(pinned@), start, *store, index@, *trust, now@));
        assert(locked@ == locked_view(tdr@, input_views(pinned@), now@));
        let pv = input_views(pinned@);
        let ev = extra_views(extra@);
        lemma_table_ok(record_data(tdr@)->Table_0);
        assert(entry_ok(record_data(tdr@)->Table_0[2]));
        assert forall|m: int| 0 <= m < ev.len() implies text_fits((#[trigger] ev[m]).0) && text_fits(ev[m].1) by {
            assert(text_fits(extra@[m].0@));
        }
        assert forall|m: int| 0 <= m < pv.len() implies text_fits((#[trigger] pv[m]).0) && canon_ok(
            input_data(pv[m].1),
        ) by {}
        lemma_body_with_ok(tdr@.body, pv, ev);
        assert(entry_ok(record_data(tdr@)->Table_0[0]));
        assert(entry_ok(record_data(tdr@)->Table_0[1]));
        let le = record_data(locked@)->Table_0;
        assert forall|m: int| 0 <= m < le.len() implies entry_ok(#[trigger] le[m]) by {
            if m < 2 {
                assert(le[m] == record_data(tdr@)->Table_0[m]);
            }
        }
        lemma_table_ok(le);
    }
    let locked_bytes = match locked.encode() {
        Ok(b) => b,
        Err(e) => return Err(e.to_string()),
    };
    let ghost before_last = *store;
    let td = put_kept(store, locked_bytes.as_slice());
    proof {
        lemma_keeps_trans(start, mid, before_last);
        lemma_keeps_trans(start, before_last, *store);
        assert forall|j: int|
            #![trigger input_views(pinned@)[j]]
            0 <= j < plan.len() implies input_views(pinned@)[j].0 == plan[j].0 && pin_ok(
            plan[j].1,
            input_views(pinned@)[j].1,
            start,
            *store,
            index@,
            *trust,
            now@,
        ) by {
            lemma_pin_kept(plan[j].1, input_views(pinned@)[j].1, start, before_last, *store, index@, *trust, now@);
        }
        assert(canon_ok(record_data(locked@)));
        assert(pinned_as(tdr@, plan, input_views(pinned@), start, *store, index@, *trust, now@));
        crate::assoc::lemma_as_map(plan);
        assert forall|n: Seq<char>| #[trigger] lock_plan(tdr@).contains_key(n) implies pin_possible(
            lock_plan(tdr@)[n],
            *store,
            index@,
            *trust,
            now@,
            fetcher is Some,
        ) by {
            let j = choose|j: int| 0 <= j < plan.len() && plan[j].0 == n;
            assert(as_map(plan)[plan[j].0] == plan[j].1);
            assert(input_views(pinned@)[j].0 == plan[j].0);
        }
    }
    Ok(Locked { td: TdHash(td), tdr: locked, fetched })
}

/// What a run does once the transform answers: store its output, or fetch
/// the URLs it still needs.
#[derive(Debug, PartialEq, Eq)]
pub enum RoundStep {
    Store(Vec<u8>),
    Fetch(Vec<String>),
}

/// The URL an input is pinned with, if any.
pub open spec fn pinned_url(i: InputV) -> Option<Seq<char>> {
    match i {
        InputV::Pinned { url, .. } => url,
        _ => None,
    }
}

/// Each input's name with the URL it is pinned with.
pub open spec fn url_names(m: Map<Seq<char>, InputV>) -> Map<Seq<char>, Option<Seq<char>>> {
    Map::new(|n: Seq<char>| m.contains_key(n), |n: Seq<char>| pinned_url(m[n]))
}

/// Whether some input is pinned with the URL `u`.
pub open spec fn has_url(pins: Map<Seq<char>, Option<Seq<char>>>, u: Seq<char>) -> bool {
    exists|n: Seq<char>| #[trigger] pins.contains_key(n) && pins[n] == Some(u)
}

/// The URLs a run fetches of those asked for, in order: each that no input
/// is pinned with yet; once fetched, a URL is pinned under its own name.
pub open spec fn fetch_plan(pins: Map<Seq<char>, Option<Seq<char>>>, urls: Seq<Seq<char>>) -> Seq<Seq<char>>
    decreases urls.len(),
{
    if urls.len() == 0 {
        Seq::empty()
    } else {
        let u = urls[0];
        if has_url(pins, u) {
            fetch_plan(pins, urls.drop_first())
        } else {
            seq![u] + fetch_plan(pins.insert(u, Some(u)), urls.drop_first())
        }
    }
}

/// Whether a run gives up before its round `rounds`: past `MAX_ROUNDS`.
pub fn gives_up(rounds: usize) -> (r: bool)
    ensures
        r == (rounds > MAX_ROUNDS),
{
    rounds > MAX_ROUNDS
}

pub open spec fn string_seq(v: Seq<String>) -> Seq<Seq<char>> {
    Seq::new(v.len(), |i: int| v[i]@)
}

pub open spec fn url_entries(v: Seq<(String, Option<String>)>) -> Seq<(Seq<char>, Option<Seq<char>>)> {
    Seq::new(
        v.len(),
        |i: int|
            (
                v[i].0@,
                match v[i].1 {
                    Some(u) => Some(u@),
                    None => None,
                },
            ),
    )
}

/// What a run does after the transform answered `reply`, its inputs being
/// `declared`: an output is stored; for inputs asked for, the URLs that
/// `fetch_plan` names are fetched.
pub fn next_round(declared: &Vec<(String, Input)>, reply: &RunReply) -> (r: RoundStep)
    requires
        names_increasing(input_names(declared@)),
    ensures
        match reply {
            RunReply::Output(out) => r matches RoundStep::Store(o) && o@ == out@,
            RunReply::NeedInputs(urls) => r matches RoundStep::Fetch(f) && string_seq(f@) == fetch_plan(
                url_names(as_map(input_views(declared@))),
                string_seq(urls@),
            ),
        },
{
    match reply {
        RunReply::Output(out) => RoundStep::Store(crate::canonical::copy_bytes(out)),
        RunReply::NeedInputs(urls) => {
            let mut pins: Vec<(String, Option<String>)> = Vec::new();
            let mut k: usize = 0;
            proof {
                lemma_inputs_unique(declared@);
            }
            let ghost dv = input_views(declared@);
            assert(url_entries(pins@) =~= Seq::<(Seq<char>, Option<Seq<char>>)>::empty());
            while k < declared.len()
                invariant
                    k <= declared.len(),
                    dv == input_views(declared@),
                    unique_keys(dv),
                    url_entries(pins@) == Seq::new(k as nat, |j: int| (dv[j].0, pinned_url(dv[j].1))),
                decreases declared.len() - k,
            {
                let u = match &declared[k].1 {
                    Input::Pinned { url, .. } => match url {
                        Some(u) => Some(u.clone()),
                        None => None,
                    },
                    _ => None,
                };
                assert(dv[k as int] == (declared@[k as int].0@, declared@[k as int].1@));
                assert(match u {
                    Some(x) => Some(x@),
                    None => None,
                } == pinned_url(dv[k as int].1));
                let ghost before = url_entries(pins@);
                let name = owned(declared[k].0.as_str());
                pins.push((name, u));
                assert(url_entries(pins@) =~= before.push((dv[k as int].0, pinned_url(dv[k as int].1))));
                assert(url_entries(pins@) =~= Seq::new((k + 1) as nat, |j: int| (dv[j].0, pinned_url(dv[j].1))));
                k = k + 1;
            }
            proof {
                assert(url_entries(pins@) =~= Seq::new(dv.len(), |j: int| (dv[j].0, pinned_url(dv[j].1))));
                lemma_as_map(dv);
                let e = url_entries(pins@);
                assert forall|a: int, b: int| 0 <= a < b < e.len() implies #[trigger] e[a].0 != #[trigger] e[b].0 by {
                    assert(e[a].0 == dv[a].0 && e[b].0 == dv[b].0);
                }
                lemma_as_map(e);
                assert forall|n: Seq<char>| #[trigger] as_map(e).contains_key(n) <==> url_names(as_map(dv)).contains_key(n) by {
                    if as_map(e).contains_key(n) {
                        let j = choose|j: int| 0 <= j < e.len() && e[j].0 == n;
                        assert(dv[j].0 == n);
                    }
                    if url_names(as_map(dv)).contains_key(n) {
                        let j = choose|j: int| 0 <= j < dv.len() && dv[j].0 == n;
                        assert(e[j].0 == n);
                    }
                }
                assert forall|n: Seq<char>| #[trigger] as_map(e).contains_key(n) implies as_map(e)[n] == url_names(as_map(dv))[n] by {
                    let j = choose|j: int| 0 <= j < e.len() && e[j].0 == n;
                    assert(as_map(e)[e[j].0] == e[j].1);
                    assert(as_map(dv)[dv[j].0] == dv[j].1);
                }
                assert(as_map(e) =~= url_names(as_map(dv)));
            }
            let ghost want = string_seq(urls@);
            let ghost all = fetch_plan(as_map(url_entries(pins@)), want);
            let mut out: Vec<String> = Vec::new();
            let mut i: usize = 0;
            assert(want.skip(0) =~= want);
            assert(string_seq(out@) + all =~= all);
            while i < urls.len()
                invariant
                    i <= urls.len(),
                    want == string_seq(urls@),
                    unique_keys(url_entries(pins@)),
                    all == string_seq(out@) + fetch_plan(as_map(url_entries(pins@)), want.skip(i as int)),
                decreases urls.len() - i,
            {
                let ghost e = url_entries(pins@);
                let ghost rest = want.skip(i as int);
                assert(rest[0] == urls@[i as int]@);
                assert(rest.drop_first() =~= want.skip(i + 1));
                let u = &urls[i];
                let mut found = false;
                let mut slot: usize = pins.len();
                let mut j: usize = 0;
                while j < pins.len()
                    invariant
                        j <= pins.len(),
                        e == url_entries(pins@),
                        slot == pins.len() || (slot < j && e[slot as int].0 == u@),
                        found == exists|m: int| 0 <= m < j && #[trigger] e[m].1 == Some(u@),
                        slot == pins.len() ==> forall|m: int| 0 <= m < j ==> e[m].0 != u@,
                    decreases pins.len() - j,
                {
                    let has = match &pins[j].1 {
                        Some(v) => same_text(v.as_str(), u.as_str()),
                        None => false,
                    };
                    assert(has == (e[j as int].1 == Some(u@)));
                    if has {
                        found = true;
                    }
                    if slot == pins.len() && same_text(pins[j].0.as_str(), u.as_str()) {
                        slot = j;
                    }
                    j = j + 1;
                }
                proof {
                    lemma_as_map(e);
                    assert(found == has_url(as_map(e), u@)) by {
                        if found {
                            let m = choose|m: int| 0 <= m < j && #[trigger] e[m].1 == Some(u@);
                            assert(as_map(e).contains_key(e[m].0) && as_map(e)[e[m].0] == e[m].1);
                        }
                        if has_url(as_map(e), u@) {
                            let n = choose|n: Seq<char>| #[trigger] as_map(e).contains_key(n) && as_map(e)[n] == Some(u@);
                            let m = choose|m: int| 0 <= m < e.len() && e[m].0 == n;
                            assert(as_map(e)[e[m].0] == e[m].1);
                            assert(e[m].1 == Some(u@));
                        }
                    }
                }
                if !found {
                    let ghost before_out = string_seq(out@);
                    out.push(u.clone());
                    assert(string_seq(out@) =~= before_out.push(u@));
                    if slot < pins.len() {
                        pins.set(slot, (u.clone(), Some(u.clone())));
                        proof {
                            assert(url_entries(pins@) =~= e.update(slot as int, (e[slot as int].0, Some(u@))));
                            crate::assoc::lemma_as_map_update(e, slot as int, Some(u@));
                        }
                    } else {
                        pins.push((u.clone(), Some(u.clone())));
                        proof {
                            if as_map(e).contains_key(u@) {
                                let m = choose|m: int| 0 <= m < e.len() && e[m].0 == u@;
                                assert(e[m].0 != u@);
                            }
                            assert(url_entries(pins@) =~= e.push((u@, Some(u@))));
                            crate::assoc::lemma_as_map_push(e, u@, Some(u@));
                        }
                    }
                    assert(before_out.push(u@) + fetch_plan(as_map(url_entries(pins@)), want.skip(i + 1)) =~= before_out + (seq![u@] + fetch_plan(as_map(e).insert(u@, Some(u@)), rest.drop_first())));
                }
                i = i + 1;
            }
            assert(want.skip(i as int) =~= Seq::<Seq<char>>::empty());
            assert(string_seq(out@) + Seq::<Seq<char>>::empty() =~= string_seq(out@));
            RoundStep::Fetch(out)
        },
    }
}

/// What a run made: the transform it ran as (with any inputs pinned while
/// running), the blob it produced, the attestation of it, and its rounds.
#[derive(Debug)]
pub struct Ran {
    pub td: TdHash,
    pub blob: BlobHash,
    pub att: crate::address::AttHash,
    pub rounds: usize,
}

/// The URL an `http-get` fetches: its `url` field, else the URL its `url`
/// input is pinned with.
pub open spec fn http_url(t: RecordV) -> Option<Seq<char>> {
    match body_text(t.body, "url"@) {
        Some(u) => Some(u),
        None => {
            let m = input_map(declared_of(t.body));
            if m.contains_key("url"@) {
                pinned_url(m["url"@])
            } else {
                None
            }
        },
    }
}

/// Whether the blob named as a transform's `args` is missing from the store.
pub open spec fn args_missing(store: MemBlobs, t: RecordV) -> bool {
    match body_text(t.body, "args"@) {
        Some(a) => match loose_blob(a) {
            Some(h) => store.held(h) is None,
            None => false,
        },
        None => false,
    }
}

/// Whether a run of the transform at `td` for `output` is refused before it
/// calls out: the transform is not held or not a TDR, is not locked, the
/// output is not held, its kind has no runtime, the runtime its kind needs
/// is not at hand, or what it names (URL, module, arguments) is missing.
pub open spec fn run_refused(store: MemBlobs, td: Seq<u8>, output: Seq<u8>, runner: bool, fetcher: bool) -> bool {
    match store.held(td) {
        None => true,
        Some(bytes) => match read_record(bytes, TDR_KIND@) {
            None => true,
            Some(t) => {
                ||| !locked_spec(t)
                ||| store.held(output) is None
                ||| if t.kind == HTTP_GET@ {
                    http_url(t) is None || !fetcher
                } else if t.kind == WASM_TRANSFORM@ {
                    ||| !runner
                    ||| module_error(t.body) is Some
                    ||| (body_text(t.body, "module"@) matches Some(m) && loose_blob(m) matches Some(h) && store.held(h) is None)
                    ||| args_missing(store, t)
                } else {
                    true
                }
            },
        },
    }
}

fn missing_blob(h: &BlobHash) -> (m: String) {
    concat(concat("blob ", h.to_hex().as_str()).as_str(), " not in store")
}

/// The URL an `http-get` fetches.
fn http_url_of(tdr: &Tdr) -> (r: Option<String>)
    ensures
        match r {
            Some(u) => http_url(tdr@) == Some(u@),
            None => http_url(tdr@) is None,
        },
{
    match crate::routing::text_field(tdr, "url") {
        Some(u) => return Some(u),
        None => {},
    }
    let declared = inputs(tdr);
    proof {
        lemma_inputs_unique(declared@);
        lemma_as_map(input_views(declared@));
    }
    let mut k: usize = 0;
    while k < declared.len()
        invariant
            k <= declared.len(),
            forall|j: int| 0 <= j < k ==> #[trigger] input_views(declared@)[j].0 != "url"@,
            unique_keys(input_views(declared@)),
            http_url(tdr@) == match body_text(tdr@.body, "url"@) {
                Some(u) => Some(u),
                None => {
                    let m = as_map(input_views(declared@));
                    if m.contains_key("url"@) {
                        pinned_url(m["url"@])
                    } else {
                        None
                    }
                },
            },
            body_text(tdr@.body, "url"@) is None,
        decreases declared.len() - k,
    {
        if same_text(declared[k].0.as_str(), "url") {
            proof {
                lemma_as_map(input_views(declared@));
            }
            assert(input_views(declared@)[k as int].0 == "url"@);
            assert(as_map(input_views(declared@))["url"@] == input_views(declared@)[k as int].1);
            return match &declared[k].1 {
                Input::Pinned { url, .. } => match url {
                    Some(u) => Some(u.clone()),
                    None => None,
                },
                _ => None,
            };
        }
        k = k + 1;
    }
    proof {
        if as_map(input_views(declared@)).contains_key("url"@) {
            let j = choose|j: int| 0 <= j < input_views(declared@).len() && input_views(declared@)[j].0 == "url"@;
            assert(input_views(declared@)[j].0 == "url"@);
        }
    }
    None
}

/// The address an attestation of `claim` signed by `secret` is stored under.
pub open spec fn attestation_address(c: ClaimV, secret: Seq<u8>) -> Seq<u8> {
    blake3_digest(canonical_bytes(attestation_data(signed_attestation(c, secret))))
}

/// Runs the locked transform at `td` for the content identity `output`: an
/// `http-get` fetches its URL with `fetcher`; a `wasm-transform` runs its
/// module with `runner`, fetching the inputs it asks for, round by round,
/// until it gives an output or has asked `MAX_ROUNDS` times. The output is
/// stored, and an attestation that the transform made it of `output`,
/// signed by `identity`, is stored beside it.
#[verifier::spinoff_prover]
#[verifier::rlimit(80)]
pub fn run<R: TransformRunner, F: Fetcher>(
    store: &mut MemBlobs,
    identity: &Identity,
    runner: Option<&R>,
    fetcher: Option<&F>,
    td: TdHash,
    output: CiHash,
) -> (r: Result<Ran, String>)
    ensures
        keeps(*old(store), *final(store)),
        run_refused(*old(store), td.0@, output.0@, runner is Some, fetcher is Some) ==> r is Err && *final(store)
            == *old(store),
        r matches Ok(ran) ==> {
            &&& !run_refused(*old(store), td.0@, output.0@, runner is Some, fetcher is Some)
            &&& 1 <= ran.rounds <= MAX_ROUNDS
            &&& final(store).held(ran.blob@) is Some
            &&& final(store).held(ran.td.0@) is Some
            &&& ran.att.0@ == attestation_address(
                ClaimV {
                    kind: ClaimKind::Content,
                    ci: output.0@,
                    td: Some(ran.td.0@),
                    blob: Some(ran.blob@),
                    other: None,
                    expires: None,
                },
                identity.secret(),
            )
            &&& final(store).held(ran.att.0@) is Some
        },
{
    let ghost start = *store;
    let bytes = match store.get(td.0) {
        Ok(b) => b,
        Err(_) => return Err(missing_blob(&td.0)),
    };
    let tdr = match Tdr::decode(bytes.as_slice()) {
        Ok(t) => t,
        Err(e) => {
            let head = concat(td.to_string().as_str(), " is not a TDR: ");
            return Err(concat(head.as_str(), e.to_string().as_str()));
        },
    };
    if !is_locked(&tdr) {
        return Err(concat(td.to_string().as_str(), " is not locked; lock it first"));
    }
    if !store.has(output.0) {
        return Err(concat(output.to_string().as_str(), " is not in the store"));
    }
    let mut blob_out: BlobHash = td.0;
    let mut td_out: TdHash = td;
    let mut rounds: usize = 0;
    if same_text(tdr.kind.as_str(), HTTP_GET) {
        let url = match http_url_of(&tdr) {
            Some(u) => u,
            None => return Err(owned("an http-get names its url")),
        };
        let f = match fetcher {
            Some(f) => f,
            None => return Err(owned("this node has no fetcher; http-get runs where one is registered")),
        };
        let got = match f.get(url.as_str()) {
            Ok(b) => b,
            Err(e) => return Err(e),
        };
        blob_out = put_kept(store, got.as_slice());
        rounds = 1;
        proof {
            assert(start.held(td.0@) is Some);
        }
    } else if same_text(tdr.kind.as_str(), WASM_TRANSFORM) {
        let run_with = match runner {
            Some(x) => x,
            None => return Err(owned("this node has no transform runner; wasm-transform runs where one is registered")),
        };
        let module_hash = match module_blob(&tdr) {
            Ok(h) => h,
            Err(e) => return Err(e),
        };
        let module = match store.get(module_hash) {
            Ok(m) => m,
            Err(_) => return Err(concat("module: ", missing_blob(&module_hash).as_str())),
        };
        let args = match crate::routing::text_field(&tdr, "args") {
            Some(text) => match read_loose_blob(text.as_str()) {
                Some(h) => match store.get(h) {
                    Ok(a) => Some(a),
                    Err(_) => return Err(missing_blob(&h)),
                },
                None => None,
            },
            None => None,
        };
        let mut current = tdr;
        let mut current_td = td;
        let mut done = false;
        proof {
            assert(start.held(td.0@) is Some);
        }
        let ghost cleared = !run_refused(start, td.0@, output.0@, true, fetcher is Some);
        assert(cleared) by {
            assert(module_error(current@.body) is None);
        }
        while !done
            invariant
                start == *old(store),
                runner is Some,
                cleared == !run_refused(*old(store), td.0@, output.0@, true, fetcher is Some),
                cleared,
                rounds <= MAX_ROUNDS,
                keeps(start, *store),
                store.held(current_td.0@) is Some,
                done ==> 1 <= rounds && store.held(blob_out@) is Some && td_out == current_td,
            decreases MAX_ROUNDS - rounds + if done { 0int } else { 1int },
        {
            rounds = rounds + 1;
            if gives_up(rounds) {
                let head = concat(td.to_string().as_str(), " asked for inputs 16 times; giving up");
                return Err(head);
            }
            let mut declared = inputs(&current);
            let mut given: Vec<(String, Vec<u8>)> = Vec::new();
            let mut k: usize = 0;
            while k < declared.len()
                invariant
                    k <= declared.len(),
                    start == *old(store),
                    runner is Some,
                    cleared,
                    cleared == !run_refused(*old(store), td.0@, output.0@, true, fetcher is Some),
                    keeps(start, *store),
                decreases declared.len() - k,
            {
                let name = &declared[k].0;
                let b = match declared[k].1.blob() {
                    Some(b) => b,
                    None => return Err(input_message(name.as_str(), " is unpinned")),
                };
                let got = match store.get(b) {
                    Ok(g) => g,
                    Err(_) => {
                        let rest = concat(": ", missing_blob(&b).as_str());
                        return Err(input_message(name.as_str(), rest.as_str()));
                    },
                };
                given.push((name.clone(), got));
                k = k + 1;
            }
            let args_here = match &args {
                Some(a) => Some(crate::canonical::copy_bytes(a)),
                None => None,
            };
            let request = RunRequest { args: args_here, inputs: given };
            let reply = match run_with.run(module.as_slice(), &request) {
                Ok(r) => r,
                Err(e) => return Err(e),
            };
            match next_round(&declared, &reply) {
                RoundStep::Store(out) => {
                    let ghost here = *store;
                    blob_out = put_kept(store, out.as_slice());
                    proof {
                        lemma_keeps_trans(start, here, *store);
                        assert(here.held(current_td.0@) is Some);
                    }
                    td_out = current_td;
                    done = true;
                },
                RoundStep::Fetch(urls) => {
                    let f = match fetcher {
                        Some(f) => f,
                        None => return Err(owned("the transform needs inputs and this node has no fetcher")),
                    };
                    let mut j: usize = 0;
                    while j < urls.len()
                        invariant
                            j <= urls.len(),
                            names_increasing(input_names(declared@)),
                            start == *old(store),
                            runner is Some,
                            cleared,
                            cleared == !run_refused(*old(store), td.0@, output.0@, true, fetcher is Some),
                            keeps(start, *store),
                            store.held(current_td.0@) is Some,
                        decreases urls.len() - j,
                    {
                        let got = match f.get(urls[j].as_str()) {
                            Ok(b) => b,
                            Err(e) => return Err(e),
                        };
                        let ghost here = *store;
                        let b = put_kept(store, got.as_slice());
                        proof {
                            lemma_keeps_trans(start, here, *store);
                            assert(here.held(current_td.0@) is Some);
                        }
                        put_input(
                            &mut declared,
                            urls[j].clone(),
                            Input::Pinned { ci: None, url: Some(urls[j].clone()), blob: b },
                        );
                        j = j + 1;
                    }
                    let none: Vec<(String, String)> = Vec::new();
                    current = with_fields(&current, &declared, &none);
                    let encoded = match current.encode() {
                        Ok(b) => b,
                        Err(e) => return Err(e.to_string()),
                    };
                    let ghost here = *store;
                    current_td = TdHash(put_kept(store, encoded.as_slice()));
                    proof {
                        lemma_keeps_trans(start, here, *store);
                    }
                },
            }
        }
    } else {
        let head = crate::ops::quoted(tdr.kind.as_str());
        return Err(concat(
            head.as_str(),
            " is a descriptive transform kind with no runtime; only http-get and wasm-transform run",
        ));
    }
    let claim = Claim::content(output, td_out, BlobRef(blob_out));
    let attestation = match Attestation::sign(claim, identity) {
        Ok(a) => a,
        Err(e) => return Err(e.to_string()),
    };
    let encoded = match attestation.encode() {
        Ok(b) => b,
        Err(e) => return Err(e.to_string()),
    };
    let ghost here = *store;
    let att = put_kept(store, encoded.as_slice());
    proof {
        lemma_keeps_trans(start, here, *store);
        assert(here.held(blob_out@) is Some);
        assert(here.held(td_out.0@) is Some);
    }
    Ok(Ran { td: td_out, blob: blob_out, att: crate::address::AttHash(att), rounds })
}

} // verus!
