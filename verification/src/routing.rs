//! Resolution: which attested artifact stands for a content identity, and
//! which providers to ask first, by the trust placed in their signers.
use vstd::prelude::*;
use crate::address::{TdHash, BlobRef};
use crate::canonical::{lex_le, bytes_le};
use crate::cbor::{Value, Data, data_pairs};
use crate::identity::Dgid;
use crate::mesh::name_lt;
use crate::ops::text_entry;
use crate::record::{Attestation, AttestationV, ClaimKind, Tdr, RecordV, signer_of};
use crate::refs::{chars_le, name_le};
use crate::store::BlobHash;
use crate::text::chars_of;
use crate::trust::{Trust, TrustLevel, rank};

verus! {

/// What a resolution asks of an artifact.
#[derive(Debug, Clone, Copy, PartialEq, Eq)]
pub struct Policy {
    /// The least trust its signer needs.
    pub minimum: TrustLevel,
    /// Whether artifacts held locally go first.
    pub prefer_held: bool,
    /// A transform whose artifacts go first.
    pub prefer_td: Option<TdHash>,
}

/// The policy resolution uses unless told otherwise: any signer trusted at
/// least as a cache, held artifacts first, no preferred transform.
pub open spec fn default_policy() -> Policy {
    Policy { minimum: TrustLevel::Cache, prefer_held: true, prefer_td: None }
}

impl Default for Policy {
    fn default() -> (p: Self)
        ensures
            p == default_policy(),
    {
        Policy { minimum: TrustLevel::Cache, prefer_held: true, prefer_td: None }
    }
}

/// The artifact picked for a content identity.
#[derive(Debug, Clone, PartialEq, Eq)]
pub struct Resolution {
    pub blob: BlobHash,
    pub signer: Dgid,
    pub td: Option<TdHash>,
    pub held: bool,
}

/// An attested artifact of a content identity, with what ranks it.
#[derive(Debug, Clone, PartialEq, Eq)]
pub struct Candidate {
    pub blob: BlobHash,
    pub td: Option<TdHash>,
    pub td_kind: Option<String>,
    pub variant: Option<String>,
    pub snapshot: Option<String>,
    pub signer: Option<Dgid>,
    pub level: TrustLevel,
    pub held: bool,
    pub expires: Option<String>,
    pub expired: bool,
    pub eligible: bool,
}

impl Candidate {
    /// The candidate as a resolution, if someone signed it.
    pub fn resolution(&self) -> (r: Option<Resolution>)
        ensures
            match r {
                Some(res) => self.signer == Some(res.signer) && res.blob == self.blob && res.td == self.td
                    && res.held == self.held,
                None => self.signer is None,
            },
    {
        match self.signer {
            Some(signer) => Some(Resolution { blob: self.blob, signer, td: self.td, held: self.held }),
            None => None,
        }
    }
}

/// The text of the field `name` of a transform's body, if it is text.
pub fn text_field(tdr: &Tdr, name: &str) -> (r: Option<String>)
    ensures
        match r {
            Some(t) => tdr.body@ matches Data::Table(entries) && text_entry(entries, name@) == Some(t@),
            None => !(tdr.body@ matches Data::Table(entries) && text_entry(entries, name@) is Some),
        },
{
    match &tdr.body {
        Value::Table(entries) => {
            let mut i: usize = entries.len();
            let mut found: Option<String> = None;
            let ghost d = data_pairs(entries@);
            proof {
                crate::cbor::lemma_data_pairs(entries@);
                assert(d.skip(entries.len() as int) =~= Seq::<(Data, Data)>::empty());
            }
            while i > 0
                invariant
                    i <= entries.len(),
                    d == data_pairs(entries@),
                    d.len() == entries.len(),
                    forall|j: int| 0 <= j < entries.len() ==> #[trigger] d[j] == (entries@[j].0@, entries@[j].1@),
                    match found {
                        Some(t) => text_entry(d.skip(i as int), name@) == Some(t@),
                        None => text_entry(d.skip(i as int), name@) is None,
                    },
                decreases i,
            {
                i = i - 1;
                assert(d.skip(i as int).drop_first() =~= d.skip(i + 1));
                assert(d.skip(i as int)[0] == d[i as int]);
                match &entries[i] {
                    (Value::Text(k), Value::Text(t)) => {
                        if crate::text::same_chars(&chars_of(k.as_str()), &chars_of(name)) {
                            found = Some(t.clone());
                        }
                    },
                    _ => {},
                }
            }
            assert(d.skip(0) =~= d);
            found
        },
        _ => None,
    }
}

pub open spec fn variant_word() -> Seq<char> {
    seq!['v', 'a', 'r', 'i', 'a', 'n', 't']
}

pub open spec fn snapshot_word() -> Seq<char> {
    seq!['s', 'n', 'a', 'p', 's', 'h', 'o', 't']
}

/// The trust `trust` places in an optional signer: none unsigned.
pub open spec fn signer_level(trust: Trust, signer: Option<Seq<u8>>) -> TrustLevel {
    match signer {
        Some(d) => trust.level_of(d),
        None => TrustLevel::Unknown,
    }
}

/// What `candidate` makes of an attestation, field by field: `tdr` is the
/// view of its transform as found in the store, `held` whether its blob is
/// held, `expired` whether its claim has expired.
pub open spec fn candidate_for(
    trust: Trust,
    policy: Policy,
    attestation: Attestation,
    tdr: Option<RecordV>,
    held: bool,
    expired: bool,
    c: Candidate,
) -> bool {
    &&& attestation@.claim.kind == ClaimKind::Content
    &&& attestation@.claim.blob == Some(c.blob@)
    &&& c.td == attestation.claim.td
    &&& match c.signer {
        Some(d) => signer_of(attestation@) == Some(d@),
        None => signer_of(attestation@) is None,
    }
    &&& c.level == signer_level(trust, signer_of(attestation@))
    &&& c.held == held
    &&& c.expired == expired
    &&& c.expires == attestation.claim.expires
    &&& c.eligible == (signer_of(attestation@) is Some && rank(c.level) >= rank(policy.minimum) && !expired)
    &&& match tdr {
        Some(t) => {
            &&& c.td_kind matches Some(k) && k@ == t.kind
            &&& match c.variant {
                Some(v) => t.body matches Data::Table(e) && text_entry(e, variant_word()) == Some(v@),
                None => !(t.body matches Data::Table(e) && text_entry(e, variant_word()) is Some),
            }
            &&& match c.snapshot {
                Some(v) => t.body matches Data::Table(e) && text_entry(e, snapshot_word()) == Some(v@),
                None => !(t.body matches Data::Table(e) && text_entry(e, snapshot_word()) is Some),
            }
        },
        None => c.td_kind is None && c.variant is None && c.snapshot is None,
    }
}

/// The view of an optional transform.
pub open spec fn tdr_view(t: Option<Tdr>) -> Option<RecordV> {
    match t {
        Some(x) => Some(x@),
        None => None,
    }
}

/// The candidate an attestation makes: only a content claim with a blob
/// makes one. `tdr` is its transform as found in the store, `held` whether
/// the blob is held, `expired` whether its claim has expired. It is
/// eligible when signed, trusted at the policy's minimum, and unexpired.
pub fn candidate(
    trust: &Trust,
    policy: Policy,
    attestation: &Attestation,
    tdr: Option<&Tdr>,
    held: bool,
    expired: bool,
) -> (r: Option<Candidate>)
    ensures
        match r {
            Some(c) => candidate_for(
                *trust,
                policy,
                *attestation,
                match tdr {
                    Some(t) => Some(t@),
                    None => None,
                },
                held,
                expired,
                c,
            ),
            None => attestation@.claim.kind != ClaimKind::Content || attestation@.claim.blob is None,
        },
{
    if attestation.claim.kind != ClaimKind::Content {
        return None;
    }
    let blob = match attestation.claim.blob {
        Some(b) => b.0,
        None => return None,
    };
    let signer = attestation.signer();
    let level = match signer {
        Some(d) => trust.level(d),
        None => TrustLevel::Unknown,
    };
    let (td_kind, variant, snapshot) = match tdr {
        Some(t) => {
            let v = text_field(t, "variant");
            let s = text_field(t, "snapshot");
            proof {
                reveal_strlit("variant");
                reveal_strlit("snapshot");
                assert("variant"@ =~= variant_word());
                assert("snapshot"@ =~= snapshot_word());
            }
            (Some(t.kind.clone()), v, s)
        },
        None => (None, None, None),
    };
    let eligible = signer.is_some() && level.at_least(policy.minimum) && !expired;
    Some(Candidate {
        blob,
        td: attestation.claim.td,
        td_kind,
        variant,
        snapshot,
        signer,
        level,
        held,
        expires: match &attestation.claim.expires {
            Some(e) => Some(e.clone()),
            None => None,
        },
        expired,
        eligible,
    })
}

/// Whether the candidate `a` ranks strictly above `b`: eligible first, then
/// the preferred transform, then held (when preferred), then higher trust,
/// then the later snapshot, then the greater blob hash.
pub open spec fn outranks(a: Candidate, b: Candidate, policy: Policy) -> bool {
    let pa = policy.prefer_td is Some && policy.prefer_td == a.td;
    let pb = policy.prefer_td is Some && policy.prefer_td == b.td;
    let ha = policy.prefer_held && a.held;
    let hb = policy.prefer_held && b.held;
    let sa = match a.snapshot {
        Some(s) => s@,
        None => Seq::empty(),
    };
    let sb = match b.snapshot {
        Some(s) => s@,
        None => Seq::empty(),
    };
    if a.eligible != b.eligible {
        a.eligible
    } else if pa != pb {
        pa
    } else if ha != hb {
        ha
    } else if rank(a.level) != rank(b.level) {
        rank(a.level) > rank(b.level)
    } else if sa != sb {
        name_lt(sb, sa)
    } else {
        !lex_le(a.blob@, b.blob@)
    }
}

fn td_eq(a: Option<TdHash>, b: Option<TdHash>) -> (r: bool)
    ensures
        r == (a == b),
{
    match (a, b) {
        (Some(x), Some(y)) => {
            let same = x.0 == y.0;
            proof {
                if same {
                    crate::store::lemma_hash_eq(x.0, y.0);
                }
            }
            same
        },
        (None, None) => true,
        _ => false,
    }
}

fn snapshot_chars(s: &Option<String>) -> (v: Vec<char>)
    ensures
        v@ == match s {
            Some(t) => t@,
            None => Seq::<char>::empty(),
        },
{
    match s {
        Some(t) => chars_of(t.as_str()),
        None => Vec::new(),
    }
}

/// Whether `a` ranks strictly above `b` under `policy`.
pub fn ranks_above(a: &Candidate, b: &Candidate, policy: Policy) -> (r: bool)
    ensures
        r == outranks(*a, *b, policy),
{
    let pa = policy.prefer_td.is_some() && td_eq(policy.prefer_td, a.td);
    let pb = policy.prefer_td.is_some() && td_eq(policy.prefer_td, b.td);
    let ha = policy.prefer_held && a.held;
    let hb = policy.prefer_held && b.held;
    let sa = snapshot_chars(&a.snapshot);
    let sb = snapshot_chars(&b.snapshot);
    if a.eligible != b.eligible {
        a.eligible
    } else if pa != pb {
        pa
    } else if ha != hb {
        ha
    } else if a.level.rank() != b.level.rank() {
        a.level.rank() > b.level.rank()
    } else if !crate::text::same_chars(&sa, &sb) {
        chars_le(&sb, &sa)
    } else {
        !bytes_le(a.blob.as_bytes(), b.blob.as_bytes())
    }
}

/// `c` placed into the ranked list `s`: after every candidate it does not
/// outrank, before the first it does.
pub open spec fn place(s: Seq<Candidate>, c: Candidate, policy: Policy) -> Seq<Candidate>
    decreases s.len(),
{
    if s.len() == 0 {
        seq![c]
    } else if outranks(c, s[0], policy) {
        seq![c] + s
    } else {
        seq![s[0]] + place(s.drop_first(), c, policy)
    }
}

/// The candidates ranked, best first; candidates of equal rank keep their
/// order.
pub open spec fn ranked(s: Seq<Candidate>, policy: Policy) -> Seq<Candidate>
    decreases s.len(),
{
    if s.len() == 0 {
        Seq::empty()
    } else {
        place(ranked(s.drop_last(), policy), s.last(), policy)
    }
}

proof fn lemma_place_at(s: Seq<Candidate>, c: Candidate, policy: Policy, j: int)
    requires
        0 <= j <= s.len(),
        forall|m: int| 0 <= m < j ==> !outranks(c, #[trigger] s[m], policy),
        j == s.len() || outranks(c, s[j], policy),
    ensures
        place(s, c, policy) == s.insert(j, c),
    decreases s.len(),
{
    if s.len() > 0 {
        if j == 0 {
            assert(seq![c] + s =~= s.insert(0, c));
        } else {
            assert forall|m: int| 0 <= m < j - 1 implies !outranks(c, #[trigger] s.drop_first()[m], policy) by {
                assert(s.drop_first()[m] == s[m + 1]);
            }
            lemma_place_at(s.drop_first(), c, policy, j - 1);
            assert(seq![s[0]] + s.drop_first().insert(j - 1, c) =~= s.insert(j, c));
        }
    } else {
        assert(seq![c] =~= s.insert(0, c));
    }
}

/// The candidates ranked best first, candidates of equal rank in the order given.
pub fn rank_candidates(found: Vec<Candidate>, policy: Policy) -> (r: Vec<Candidate>)
    ensures
        r@ == ranked(found@, policy),
{
    let ghost all = found@;
    let mut rest = found;
    let mut out: Vec<Candidate> = Vec::new();
    let mut k: usize = 0;
    assert(all.take(0) =~= Seq::<Candidate>::empty());
    assert(all.skip(0) =~= all);
    assert(all.len() == rest.len());
    while rest.len() > 0
        invariant
            all.len() <= usize::MAX,
            k <= all.len(),
            k + rest@.len() == all.len(),
            rest@ == all.skip(k as int),
            out@ == ranked(all.take(k as int), policy),
        decreases rest.len(),
    {
        let c = rest.remove(0);
        assert(c == all[k as int]);
        let mut j: usize = 0;
        let mut go = true;
        while go && j < out.len()
            invariant
                j <= out@.len(),
                forall|m: int| 0 <= m < j ==> !outranks(c, #[trigger] out@[m], policy),
                !go ==> j < out@.len() && outranks(c, out@[j as int], policy),
            decreases out.len() - j + (if go { 1int } else { 0int }),
        {
            if ranks_above(&c, &out[j], policy) {
                go = false;
            } else {
                j = j + 1;
            }
        }
        proof {
            lemma_place_at(out@, c, policy, j as int);
            assert(all.take(k + 1).drop_last() =~= all.take(k as int));
            assert(all.take(k + 1).last() == c);
            assert(all.skip(k as int).remove(0) =~= all.skip(k + 1));
        }
        out.insert(j, c);
        k = k + 1;
    }
    assert(all.take(k as int) =~= all);
    out
}

/// The first eligible candidate, if any.
pub open spec fn first_eligible(s: Seq<Candidate>) -> Option<Candidate>
    decreases s.len(),
{
    if s.len() == 0 {
        None
    } else if s[0].eligible {
        Some(s[0])
    } else {
        first_eligible(s.drop_first())
    }
}

/// The resolution a candidate gives, if someone signed it.
pub open spec fn resolution_of(c: Option<Candidate>) -> Option<Resolution> {
    match c {
        Some(x) => match x.signer {
            Some(d) => Some(Resolution { blob: x.blob, signer: d, td: x.td, held: x.held }),
            None => None,
        },
        None => None,
    }
}

/// The resolution of a ranked list: its first eligible candidate.
pub fn resolve_ranked(ranked_list: &Vec<Candidate>) -> (r: Option<Resolution>)
    ensures
        r == resolution_of(first_eligible(ranked_list@)),
{
    let mut i: usize = 0;
    assert(ranked_list@.skip(0) =~= ranked_list@);
    while i < ranked_list.len()
        invariant
            i <= ranked_list.len(),
            first_eligible(ranked_list@) == first_eligible(ranked_list@.skip(i as int)),
        decreases ranked_list.len() - i,
    {
        assert(ranked_list@.skip(i as int)[0] == ranked_list@[i as int]);
        if ranked_list[i].eligible {
            return ranked_list[i].resolution();
        }
        assert(ranked_list@.skip(i as int).drop_first() =~= ranked_list@.skip(i + 1));
        i = i + 1;
    }
    None
}

/// What the store says of one attestation: the attestation, its transform if
/// the store holds one, whether its blob is held, and whether its claim has
/// expired.
pub struct Found {
    pub attestation: Attestation,
    pub tdr: Option<Tdr>,
    pub held: bool,
    pub expired: bool,
}

/// `out` is what `candidate` makes of `found`, in order, with `idx` the
/// position in `found` of the attestation each candidate comes from: every
/// content claim with a blob, and nothing else, makes one.
pub open spec fn made_at(trust: Trust, policy: Policy, found: Seq<Found>, out: Seq<Candidate>, idx: Seq<int>) -> bool {
    &&& idx.len() == out.len()
    &&& forall|a: int, b: int| 0 <= a < b < idx.len() ==> idx[a] < idx[b]
    &&& forall|a: int| 0 <= a < idx.len() ==> 0 <= #[trigger] idx[a] < found.len()
    &&& forall|j: int|
        0 <= j < found.len() ==> (found[j].attestation@.claim.kind == ClaimKind::Content
            && found[j].attestation@.claim.blob is Some <==> exists|a: int| 0 <= a < idx.len() && #[trigger] idx[a] == j)
    &&& forall|a: int|
        0 <= a < idx.len() ==> candidate_for(
            trust,
            policy,
            found[idx[a]].attestation,
            tdr_view(found[idx[a]].tdr),
            found[idx[a]].held,
            found[idx[a]].expired,
            #[trigger] out[a],
        )
}

/// The candidates the attestations make, as `candidate` makes each.
pub open spec fn made(trust: Trust, policy: Policy, found: Seq<Found>, out: Seq<Candidate>) -> bool {
    exists|idx: Seq<int>| #[trigger] made_at(trust, policy, found, out, idx)
}

/// Every candidate the attestations make, ranked best first.
pub fn artifacts(trust: &Trust, policy: Policy, found: &Vec<Found>) -> (r: Vec<Candidate>)
    ensures
        exists|made_list: Seq<Candidate>| made(*trust, policy, found@, made_list) && r@ == ranked(made_list, policy),
{
    let mut list: Vec<Candidate> = Vec::new();
    let ghost mut idx: Seq<int> = Seq::empty();
    let mut i: usize = 0;
    while i < found.len()
        invariant
            i <= found.len(),
            idx.len() == list@.len(),
            forall|a: int, b: int| 0 <= a < b < idx.len() ==> idx[a] < idx[b],
            forall|a: int| 0 <= a < idx.len() ==> 0 <= #[trigger] idx[a] < i,
            forall|j: int|
                0 <= j < i ==> (found@[j].attestation@.claim.kind == ClaimKind::Content
                    && found@[j].attestation@.claim.blob is Some <==> exists|a: int|
                    0 <= a < idx.len() && #[trigger] idx[a] == j),
            forall|a: int|
                0 <= a < idx.len() ==> candidate_for(
                    *trust,
                    policy,
                    found@[idx[a]].attestation,
                    tdr_view(found@[idx[a]].tdr),
                    found@[idx[a]].held,
                    found@[idx[a]].expired,
                    #[trigger] list@[a],
                ),
        decreases found.len() - i,
    {
        let f = &found[i];
        let tdr = match &f.tdr {
            Some(t) => Some(t),
            None => None,
        };
        match candidate(trust, policy, &f.attestation, tdr, f.held, f.expired) {
            Some(c) => {
                list.push(c);
                proof {
                    let old_idx = idx;
                    idx = idx.push(i as int);
                    assert forall|j: int|
                        0 <= j < i + 1 implies (found@[j].attestation@.claim.kind == ClaimKind::Content
                        && found@[j].attestation@.claim.blob is Some <==> exists|a: int|
                        0 <= a < idx.len() && #[trigger] idx[a] == j) by {
                        if j < i {
                            if exists|a: int| 0 <= a < old_idx.len() && #[trigger] old_idx[a] == j {
                                let a = choose|a: int| 0 <= a < old_idx.len() && #[trigger] old_idx[a] == j;
                                assert(idx[a] == j);
                            }
                            if exists|a: int| 0 <= a < idx.len() && #[trigger] idx[a] == j {
                                let a = choose|a: int| 0 <= a < idx.len() && #[trigger] idx[a] == j;
                                assert(a < old_idx.len());
                                assert(old_idx[a] == j);
                            }
                        } else {
                            assert(idx[old_idx.len() as int] == j);
                        }
                    }
                }
            },
            None => {
                proof {
                    assert forall|j: int|
                        0 <= j < i + 1 implies (found@[j].attestation@.claim.kind == ClaimKind::Content
                        && found@[j].attestation@.claim.blob is Some <==> exists|a: int|
                        0 <= a < idx.len() && #[trigger] idx[a] == j) by {
                        if j == i {
                            if exists|a: int| 0 <= a < idx.len() && #[trigger] idx[a] == j {
                                let a = choose|a: int| 0 <= a < idx.len() && #[trigger] idx[a] == j;
                                assert(idx[a] < i);
                            }
                        }
                    }
                }
            },
        }
        i = i + 1;
    }
    let ghost made_list = list@;
    assert(made_at(*trust, policy, found@, made_list, idx));
    rank_candidates(list, policy)
}

/// The artifact that stands for a content identity: the best ranked
/// eligible candidate.
pub fn resolve(trust: &Trust, policy: Policy, found: &Vec<Found>) -> (r: Option<Resolution>)
    ensures
        exists|made_list: Seq<Candidate>|
            made(*trust, policy, found@, made_list) && r == resolution_of(first_eligible(ranked(made_list, policy))),
        r is Some <==> exists|j: int| 0 <= j < found@.len() && found_eligible(*trust, policy, #[trigger] found@[j]),
{
    let list = artifacts(trust, policy, found);
    let r = resolve_ranked(&list);
    proof {
        let made_list = choose|made_list: Seq<Candidate>|
            made(*trust, policy, found@, made_list) && list@ == ranked(made_list, policy);
        lemma_pick_is_eligible(*trust, policy, found@, made_list);
    }
    r
}

/// `x` placed into a list ordered by level, highest first: after every
/// entry at its level or above.
pub open spec fn place_level<T>(s: Seq<(int, T)>, x: (int, T)) -> Seq<(int, T)>
    decreases s.len(),
{
    if s.len() == 0 {
        seq![x]
    } else if x.0 > s[0].0 {
        seq![x] + s
    } else {
        seq![s[0]] + place_level(s.drop_first(), x)
    }
}

/// Entries ordered by level, highest first, entries of one level in the order given.
pub open spec fn by_level<T>(s: Seq<(int, T)>) -> Seq<(int, T)>
    decreases s.len(),
{
    if s.len() == 0 {
        Seq::empty()
    } else {
        place_level(by_level(s.drop_last()), s.last())
    }
}

/// The providers trusted at the policy's minimum, with their levels, in the order given.
pub open spec fn trusted_providers<T>(trust: Trust, policy: Policy, s: Seq<(Dgid, T)>) -> Seq<(int, T)>
    decreases s.len(),
{
    if s.len() == 0 {
        Seq::empty()
    } else {
        let r = trusted_providers(trust, policy, s.drop_last());
        let l = rank(trust.level_of(s.last().0@));
        if l >= rank(policy.minimum) {
            r.push((l, s.last().1))
        } else {
            r
        }
    }
}

proof fn lemma_place_level_at<T>(s: Seq<(int, T)>, x: (int, T), j: int)
    requires
        0 <= j <= s.len(),
        forall|m: int| 0 <= m < j ==> x.0 <= (#[trigger] s[m]).0,
        j == s.len() || x.0 > s[j].0,
    ensures
        place_level(s, x) == s.insert(j, x),
    decreases s.len(),
{
    if s.len() > 0 {
        if j == 0 {
            assert(seq![x] + s =~= s.insert(0, x));
        } else {
            assert forall|m: int| 0 <= m < j - 1 implies x.0 <= (#[trigger] s.drop_first()[m]).0 by {
                assert(s.drop_first()[m] == s[m + 1]);
            }
            lemma_place_level_at(s.drop_first(), x, j - 1);
            assert(seq![s[0]] + s.drop_first().insert(j - 1, x) =~= s.insert(j, x));
        }
    } else {
        assert(seq![x] =~= s.insert(0, x));
    }
}

/// The providers to ask, best trusted first: those trusted at the policy's
/// minimum, by level, providers of one level in the order given.
pub fn rank_providers<T>(trust: &Trust, policy: Policy, providers: Vec<(Dgid, T)>) -> (r: Vec<T>)
    ensures
        r@ == by_level(trusted_providers(*trust, policy, providers@)).map_values(|e: (int, T)| e.1),
{
    let ghost all = providers@;
    let mut rest = providers;
    let mut out: Vec<(u8, T)> = Vec::new();
    let mut k: usize = 0;
    assert(all.take(0) =~= Seq::<(Dgid, T)>::empty());
    assert(all.skip(0) =~= all);
    assert(all.len() == rest.len());
    let ghost mut kept: Seq<(int, T)> = Seq::empty();
    while rest.len() > 0
        invariant
            all.len() <= usize::MAX,
            k <= all.len(),
            k + rest@.len() == all.len(),
            rest@ == all.skip(k as int),
            kept == trusted_providers(*trust, policy, all.take(k as int)),
            out@.len() == by_level(kept).len(),
            forall|m: int| 0 <= m < out@.len() ==> (#[trigger] out@[m]).0 as int == by_level(kept)[m].0 && out@[m].1
                == by_level(kept)[m].1,
        decreases rest.len(),
    {
        let (dgid, item) = rest.remove(0);
        assert((dgid, item) == all[k as int]);
        proof {
            assert(all.take(k + 1).drop_last() =~= all.take(k as int));
            assert(all.take(k + 1).last() == all[k as int]);
            assert(all.skip(k as int).remove(0) =~= all.skip(k + 1));
        }
        let level = trust.level(dgid).rank();
        if level >= policy.minimum.rank() {
            let ghost x = (level as int, item);
            let ghost before = by_level(kept);
            let mut j: usize = 0;
            let mut go = true;
            while go && j < out.len()
                invariant
                    j <= out@.len(),
                    out@.len() == before.len(),
                    forall|m: int| 0 <= m < out@.len() ==> (#[trigger] out@[m]).0 as int == before[m].0 && out@[m].1 == before[m].1,
                    forall|m: int| 0 <= m < j ==> level <= (#[trigger] before[m]).0,
                    !go ==> j < out@.len() && level > before[j as int].0,
                decreases out.len() - j + (if go { 1int } else { 0int }),
            {
                if level > out[j].0 {
                    go = false;
                } else {
                    j = j + 1;
                }
            }
            proof {
                lemma_place_level_at(before, x, j as int);
                let kept0 = kept;
                kept = kept.push(x);
                assert(kept.drop_last() =~= kept0);
                assert(kept.last() == x);
                assert(by_level(kept) == place_level(before, x));
            }
            let ghost out_before = out@;
            out.insert(j, (level, item));
            proof {
                assert(out@ == out_before.insert(j as int, (level, item)));
                assert(by_level(kept) == before.insert(j as int, x));
                assert forall|m: int| 0 <= m < out@.len() implies (#[trigger] out@[m]).0 as int == by_level(kept)[m].0
                    && out@[m].1 == by_level(kept)[m].1 by {
                    if m < j {
                        assert(out@[m] == out_before[m]);
                    } else if m > j {
                        assert(out@[m] == out_before[m - 1]);
                    }
                }
            }
        }
        k = k + 1;
    }
    assert(all.take(k as int) =~= all);
    let mut result: Vec<T> = Vec::new();
    while out.len() > 0
        invariant
            result@.len() + out@.len() == by_level(kept).len(),
            forall|m: int| 0 <= m < result@.len() ==> result@[m] == by_level(kept)[m].1,
            forall|m: int| 0 <= m < out@.len() ==> (#[trigger] out@[m]).1 == by_level(kept)[result@.len() + m].1,
        decreases out.len(),
    {
        let (_, item) = out.remove(0);
        result.push(item);
    }
    assert(result@ =~= by_level(kept).map_values(|e: (int, T)| e.1));
    result
}

proof fn lemma_outranks_trans(a: Candidate, b: Candidate, c: Candidate, policy: Policy)
    requires
        outranks(a, b, policy),
        outranks(b, c, policy),
    ensures
        outranks(a, c, policy),
{
    let sa = match a.snapshot {
        Some(s) => s@,
        None => Seq::empty(),
    };
    let sb = match b.snapshot {
        Some(s) => s@,
        None => Seq::empty(),
    };
    let sc = match c.snapshot {
        Some(s) => s@,
        None => Seq::empty(),
    };
    if name_lt(sb, sa) && name_lt(sc, sb) {
        crate::mesh::lemma_name_lt_trans(sc, sb, sa);
    }
    if name_lt(sc, sb) && sa == sb {
    }
    if !lex_le(a.blob@, b.blob@) && !lex_le(b.blob@, c.blob@) {
        crate::canonical::lemma_lex_total(a.blob@, b.blob@);
        crate::canonical::lemma_lex_total(b.blob@, c.blob@);
        crate::canonical::lemma_lex_total(a.blob@, c.blob@);
        if lex_le(a.blob@, c.blob@) {
            crate::canonical::lemma_lex_trans(c.blob@, b.blob@, a.blob@);
            crate::canonical::lemma_lex_antisym(a.blob@, c.blob@);
        }
    }
    if name_lt(sb, sa) && name_lt(sa, sb) {
        crate::mesh::lemma_name_lt_trans(sa, sb, sa);
    }
}

proof fn lemma_outranks_asym(a: Candidate, b: Candidate, policy: Policy)
    requires
        outranks(a, b, policy),
    ensures
        !outranks(b, a, policy),
{
    if outranks(b, a, policy) {
        lemma_outranks_trans(a, b, a, policy);
        let sa = match a.snapshot {
            Some(s) => s@,
            None => Seq::empty(),
        };
        if name_lt(sa, sa) {
        }
        crate::canonical::lemma_lex_total(a.blob@, a.blob@);
    }
}

/// Whether no candidate of `s` outranks one before it.
pub open spec fn best_first(s: Seq<Candidate>, policy: Policy) -> bool {
    forall|i: int, j: int| 0 <= i < j < s.len() ==> !outranks(#[trigger] s[j], #[trigger] s[i], policy)
}

proof fn lemma_place_best_first(s: Seq<Candidate>, c: Candidate, policy: Policy)
    requires
        best_first(s, policy),
    ensures
        best_first(place(s, c, policy), policy),
        place(s, c, policy).len() == s.len() + 1,
    decreases s.len(),
{
    if s.len() > 0 {
        if outranks(c, s[0], policy) {
            let r = seq![c] + s;
            assert forall|i: int, j: int| 0 <= i < j < r.len() implies !outranks(#[trigger] r[j], #[trigger] r[i], policy) by {
                if i == 0 {
                    assert(r[j] == s[j - 1]);
                    if j - 1 > 0 {
                        assert(!outranks(s[j - 1], s[0], policy));
                        if outranks(s[j - 1], c, policy) {
                            lemma_outranks_trans(s[j - 1], c, s[0], policy);
                        }
                    } else {
                        lemma_outranks_asym(c, s[0], policy);
                    }
                } else {
                    assert(r[i] == s[i - 1] && r[j] == s[j - 1]);
                }
            }
        } else {
            let t = s.drop_first();
            assert forall|i: int, j: int| 0 <= i < j < t.len() implies !outranks(#[trigger] t[j], #[trigger] t[i], policy) by {
                assert(t[i] == s[i + 1] && t[j] == s[j + 1]);
            }
            lemma_place_best_first(t, c, policy);
            let p = place(t, c, policy);
            let r = seq![s[0]] + p;
            assert forall|i: int, j: int| 0 <= i < j < r.len() implies !outranks(#[trigger] r[j], #[trigger] r[i], policy) by {
                if i == 0 {
                    assert(r[j] == p[j - 1]);
                    lemma_place_members(t, c, policy, j - 1);
                    if p[j - 1] != c {
                        let k = choose|k: int| 0 <= k < t.len() && t[k] == p[j - 1];
                        assert(t[k] == s[k + 1]);
                        assert(!outranks(s[k + 1], s[0], policy));
                    }
                } else {
                    assert(r[i] == p[i - 1] && r[j] == p[j - 1]);
                }
            }
        }
    }
}

proof fn lemma_place_members(t: Seq<Candidate>, c: Candidate, policy: Policy, m: int)
    requires
        0 <= m < place(t, c, policy).len(),
    ensures
        place(t, c, policy)[m] == c || exists|k: int| 0 <= k < t.len() && t[k] == place(t, c, policy)[m],
    decreases t.len(),
{
    if t.len() > 0 {
        if outranks(c, t[0], policy) {
            if m > 0 {
                assert(place(t, c, policy)[m] == t[m - 1]);
            }
        } else {
            if m == 0 {
                assert(place(t, c, policy)[0] == t[0]);
            } else {
                lemma_place_members(t.drop_first(), c, policy, m - 1);
                let p = place(t.drop_first(), c, policy);
                assert(place(t, c, policy)[m] == p[m - 1]);
                if p[m - 1] != c {
                    let k = choose|k: int| 0 <= k < t.drop_first().len() && t.drop_first()[k] == p[m - 1];
                    assert(t[k + 1] == p[m - 1]);
                }
            }
        }
    }
}

proof fn lemma_ranked_members(s: Seq<Candidate>, policy: Policy, m: int)
    requires
        0 <= m < ranked(s, policy).len(),
    ensures
        exists|k: int| 0 <= k < s.len() && s[k] == ranked(s, policy)[m],
    decreases s.len(),
{
    if s.len() > 0 {
        let t = ranked(s.drop_last(), policy);
        lemma_place_members(t, s.last(), policy, m);
        if ranked(s, policy)[m] == s.last() {
            assert(s[s.len() - 1] == s.last());
        } else {
            let k = choose|k: int| 0 <= k < t.len() && t[k] == ranked(s, policy)[m];
            lemma_ranked_members(s.drop_last(), policy, k);
            let k2 = choose|k2: int| 0 <= k2 < s.drop_last().len() && s.drop_last()[k2] == t[k];
            assert(s[k2] == s.drop_last()[k2]);
        }
    }
}

proof fn lemma_first_eligible_member(s: Seq<Candidate>)
    ensures
        first_eligible(s) matches Some(c) ==> c.eligible && exists|k: int| 0 <= k < s.len() && s[k] == c,
    decreases s.len(),
{
    if s.len() > 0 && !s[0].eligible {
        lemma_first_eligible_member(s.drop_first());
        if first_eligible(s) is Some {
            let c = first_eligible(s)->0;
            let k = choose|k: int| 0 <= k < s.drop_first().len() && s.drop_first()[k] == c;
            assert(s[k + 1] == c);
        }
    }
}

/// Whether a found attestation makes a candidate that resolution may pick:
/// a content claim with a blob, signed by a group trusted at the policy's
/// minimum, that has not expired.
pub open spec fn found_eligible(trust: Trust, policy: Policy, f: Found) -> bool {
    &&& f.attestation@.claim.kind == ClaimKind::Content
    &&& f.attestation@.claim.blob is Some
    &&& signer_of(f.attestation@) is Some
    &&& rank(signer_level(trust, signer_of(f.attestation@))) >= rank(policy.minimum)
    &&& !f.expired
}

proof fn lemma_place_keeps(t: Seq<Candidate>, c: Candidate, policy: Policy, k: int)
    requires
        0 <= k < t.len(),
    ensures
        exists|m: int| 0 <= m < place(t, c, policy).len() && #[trigger] place(t, c, policy)[m] == t[k],
    decreases t.len(),
{
    if outranks(c, t[0], policy) {
        assert(place(t, c, policy)[k + 1] == t[k]);
    } else if k == 0 {
        assert(place(t, c, policy)[0] == t[0]);
    } else {
        lemma_place_keeps(t.drop_first(), c, policy, k - 1);
        let p = place(t.drop_first(), c, policy);
        let m = choose|m: int| 0 <= m < p.len() && #[trigger] p[m] == t.drop_first()[k - 1];
        assert(place(t, c, policy)[m + 1] == p[m]);
    }
}

proof fn lemma_place_has(t: Seq<Candidate>, c: Candidate, policy: Policy)
    ensures
        exists|m: int| 0 <= m < place(t, c, policy).len() && #[trigger] place(t, c, policy)[m] == c,
    decreases t.len(),
{
    if t.len() == 0 || outranks(c, t[0], policy) {
        assert(place(t, c, policy)[0] == c);
    } else {
        lemma_place_has(t.drop_first(), c, policy);
        let p = place(t.drop_first(), c, policy);
        let m = choose|m: int| 0 <= m < p.len() && #[trigger] p[m] == c;
        assert(place(t, c, policy)[m + 1] == p[m]);
    }
}

/// Every candidate given stands somewhere in the ranked list.
proof fn lemma_ranked_keeps(s: Seq<Candidate>, policy: Policy, k: int)
    requires
        0 <= k < s.len(),
    ensures
        exists|m: int| 0 <= m < ranked(s, policy).len() && #[trigger] ranked(s, policy)[m] == s[k],
    decreases s.len(),
{
    let t = ranked(s.drop_last(), policy);
    assert(ranked(s, policy) == place(t, s.last(), policy));
    if k == s.len() - 1 {
        lemma_place_has(t, s.last(), policy);
    } else {
        lemma_ranked_keeps(s.drop_last(), policy, k);
        assert(s.drop_last()[k] == s[k]);
        let m = choose|m: int| 0 <= m < t.len() && #[trigger] t[m] == s.drop_last()[k];
        lemma_place_keeps(t, s.last(), policy, m);
    }
}

proof fn lemma_first_eligible_none(s: Seq<Candidate>, m: int)
    requires
        first_eligible(s) is None,
        0 <= m < s.len(),
    ensures
        !s[m].eligible,
    decreases s.len(),
{
    if m > 0 {
        lemma_first_eligible_none(s.drop_first(), m - 1);
    }
}

/// What a resolution picks is made from one of the attestations found, one
/// that resolution may pick; and it picks something whenever one of them is
/// such an attestation.
pub proof fn lemma_pick_is_eligible(trust: Trust, policy: Policy, found: Seq<Found>, made_list: Seq<Candidate>)
    requires
        made(trust, policy, found, made_list),
    ensures
        first_eligible(ranked(made_list, policy)) matches Some(c) ==> c.signer is Some && exists|j: int|
            0 <= j < found.len() && found_eligible(trust, policy, #[trigger] found[j])
                && found[j].attestation@.claim.blob == Some(c.blob@),
        first_eligible(ranked(made_list, policy)) is Some <==> exists|j: int|
            0 <= j < found.len() && found_eligible(trust, policy, #[trigger] found[j]),
{
    let r = ranked(made_list, policy);
    let idx = choose|idx: Seq<int>| #[trigger] made_at(trust, policy, found, made_list, idx);
    lemma_first_eligible_member(r);
    if first_eligible(r) is Some {
        let c = first_eligible(r)->0;
        let m = choose|m: int| 0 <= m < r.len() && r[m] == c;
        lemma_ranked_members(made_list, policy, m);
        let k = choose|k: int| 0 <= k < made_list.len() && made_list[k] == r[m];
        let j = idx[k];
        assert(made_list[k].eligible);
        assert(exists|a: int| 0 <= a < idx.len() && #[trigger] idx[a] == j);
        assert(found_eligible(trust, policy, found[j]));
    } else {
        assert forall|j: int| 0 <= j < found.len() implies !found_eligible(trust, policy, #[trigger] found[j]) by {
            if found_eligible(trust, policy, found[j]) {
                let a = choose|a: int| 0 <= a < idx.len() && #[trigger] idx[a] == j;
                assert(made_list[a].eligible);
                lemma_ranked_keeps(made_list, policy, a);
                let m = choose|m: int| 0 <= m < r.len() && #[trigger] r[m] == made_list[a];
                lemma_first_eligible_none(r, m);
            }
        }
    }
}

/// Ranking puts candidates best first: none outranks one placed before it.
pub proof fn law_ranked_best_first(s: Seq<Candidate>, policy: Policy)
    ensures
        best_first(ranked(s, policy), policy),
        ranked(s, policy).len() == s.len(),
    decreases s.len(),
{
    if s.len() > 0 {
        law_ranked_best_first(s.drop_last(), policy);
        lemma_place_best_first(ranked(s.drop_last(), policy), s.last(), policy);
    }
}

proof fn lemma_place_level_sorted<T>(s: Seq<(int, T)>, x: (int, T))
    requires
        forall|i: int, j: int| 0 <= i < j < s.len() ==> (#[trigger] s[i]).0 >= (#[trigger] s[j]).0,
    ensures
        forall|i: int, j: int|
            0 <= i < j < place_level(s, x).len() ==> (#[trigger] place_level(s, x)[i]).0 >= (#[trigger] place_level(
                s,
                x,
            )[j]).0,
        place_level(s, x).len() == s.len() + 1,
        forall|i: int| 0 <= i < place_level(s, x).len() ==> (#[trigger] place_level(s, x)[i]).0 == x.0 || exists|k: int|
            0 <= k < s.len() && s[k].0 == place_level(s, x)[i].0,
    decreases s.len(),
{
    if s.len() > 0 {
        if x.0 > s[0].0 {
            let r = seq![x] + s;
            assert forall|i: int, j: int| 0 <= i < j < r.len() implies (#[trigger] r[i]).0 >= (#[trigger] r[j]).0 by {
                if i == 0 {
                    assert(r[j] == s[j - 1]);
                    if j > 1 {
                        assert(s[0].0 >= s[j - 1].0);
                    }
                } else {
                    assert(r[i] == s[i - 1] && r[j] == s[j - 1]);
                }
            }
            assert forall|i: int| 0 <= i < r.len() implies (#[trigger] r[i]).0 == x.0 || exists|k: int|
                0 <= k < s.len() && s[k].0 == r[i].0 by {
                if i > 0 {
                    assert(r[i] == s[i - 1]);
                }
            }
        } else {
            let t = s.drop_first();
            assert forall|i: int, j: int| 0 <= i < j < t.len() implies (#[trigger] t[i]).0 >= (#[trigger] t[j]).0 by {
                assert(t[i] == s[i + 1] && t[j] == s[j + 1]);
            }
            lemma_place_level_sorted(t, x);
            let p = place_level(t, x);
            let r = seq![s[0]] + p;
            assert forall|i: int, j: int| 0 <= i < j < r.len() implies (#[trigger] r[i]).0 >= (#[trigger] r[j]).0 by {
                if i == 0 {
                    assert(r[j] == p[j - 1]);
                    if p[j - 1].0 != x.0 {
                        let k = choose|k: int| 0 <= k < t.len() && t[k].0 == p[j - 1].0;
                        assert(t[k] == s[k + 1]);
                    }
                } else {
                    assert(r[i] == p[i - 1] && r[j] == p[j - 1]);
                }
            }
            assert forall|i: int| 0 <= i < r.len() implies (#[trigger] r[i]).0 == x.0 || exists|k: int|
                0 <= k < s.len() && s[k].0 == r[i].0 by {
                if i == 0 {
                    assert(s[0].0 == r[0].0);
                } else {
                    assert(r[i] == p[i - 1]);
                    if p[i - 1].0 != x.0 {
                        let k = choose|k: int| 0 <= k < t.len() && t[k].0 == p[i - 1].0;
                        assert(s[k + 1].0 == r[i].0);
                    }
                }
            }
        }
    }
}

/// Providers come best trusted first.
pub proof fn law_providers_best_first<T>(s: Seq<(int, T)>)
    ensures
        forall|i: int, j: int| 0 <= i < j < by_level(s).len() ==> (#[trigger] by_level(s)[i]).0 >= (#[trigger] by_level(s)[j]).0,
        by_level(s).len() == s.len(),
    decreases s.len(),
{
    if s.len() > 0 {
        law_providers_best_first(s.drop_last());
        lemma_place_level_sorted(by_level(s.drop_last()), s.last());
    }
}

/// How ranking weighs held artifacts: under a policy that prefers held
/// artifacts, of two candidates equal in eligibility and in whether they
/// are of the preferred transform, a held one ranks above one not held,
/// never below it. Eligibility weighs first: an eligible candidate ranks
/// above one that is not. Between candidates equal in all of these and in
/// their holding, higher trust ranks above lower.
pub proof fn law_ranking_prefers_eligible_then_held_then_trusted(a: Candidate, b: Candidate, policy: Policy)
    ensures
        a.eligible && !b.eligible ==> outranks(a, b, policy) && !outranks(b, a, policy),
        ({
            let same_td = policy.prefer_td is None || ((policy.prefer_td == a.td) == (policy.prefer_td == b.td));
            policy.prefer_held && a.eligible == b.eligible && same_td && a.held && !b.held ==> outranks(a, b, policy)
                && !outranks(b, a, policy)
        }),
        ({
            let same_td = policy.prefer_td is None || ((policy.prefer_td == a.td) == (policy.prefer_td == b.td));
            a.eligible == b.eligible && same_td && (!policy.prefer_held || a.held == b.held) && rank(a.level) > rank(
                b.level,
            ) ==> outranks(a, b, policy) && !outranks(b, a, policy)
        }),
{
}

/// The rest of ranking, criterion by criterion: an artifact of the
/// preferred transform ranks above one of another transform when both are
/// equally eligible; between candidates alike in eligibility, transform,
/// holding and trust, the later snapshot ranks above the earlier; and
/// between candidates alike in all of that, the greater blob hash ranks
/// above. No candidate ranks above itself.
pub proof fn law_ranking_by_transform_snapshot_and_blob(a: Candidate, b: Candidate, policy: Policy)
    ensures
        !outranks(a, a, policy),
        policy.prefer_td is Some && a.eligible == b.eligible && policy.prefer_td == a.td && policy.prefer_td != b.td
            ==> outranks(a, b, policy),
        ({
            let same_td = policy.prefer_td is None || ((policy.prefer_td == a.td) == (policy.prefer_td == b.td));
            let sa = match a.snapshot {
                Some(t) => t@,
                None => Seq::<char>::empty(),
            };
            let sb = match b.snapshot {
                Some(t) => t@,
                None => Seq::<char>::empty(),
            };
            let alike = a.eligible == b.eligible && same_td && (!policy.prefer_held || a.held == b.held) && rank(a.level)
                == rank(b.level);
            &&& alike && name_lt(sb, sa) ==> outranks(a, b, policy)
            &&& alike && sa == sb && a.blob@ != b.blob@ && lex_le(b.blob@, a.blob@) ==> outranks(a, b, policy)
        }),
{
    crate::canonical::lemma_lex_total(a.blob@, a.blob@);
    if a.blob@ != b.blob@ && lex_le(b.blob@, a.blob@) {
        if lex_le(a.blob@, b.blob@) {
            crate::canonical::lemma_lex_antisym(a.blob@, b.blob@);
        }
    }
}

/// Resolution by default takes artifacts signed by groups trusted at least
/// as a cache, puts held artifacts first, and prefers no transform: so of
/// two eligible artifacts alike but for holding, the held one ranks first.
pub proof fn law_default_policy_prefers_held(a: Candidate, b: Candidate)
    ensures
        default_policy().minimum == TrustLevel::Cache,
        default_policy().prefer_held,
        default_policy().prefer_td is None,
        a.eligible == b.eligible && a.held && !b.held ==> outranks(a, b, default_policy()),
{
}

} // verus!
