//! The text the command line prints for each command, from the views the
//! store answers with.
use vstd::prelude::*;
use crate::lex::{dec_text, decimal};
use crate::ops::{
    AttestationView, BlobInfo, CollectionSummary, CollectionView, IdentityInfo, IndexView, ItemView,
    MemberView, OpView, RefInfo, TrustEntry, Artifact, Pick, debug_quoted, quoted,
};
use crate::text::{chars_of, string_of, append, owned, starts_with};

verus! {

/// The texts one after another.
pub open spec fn flat(s: Seq<Seq<char>>) -> Seq<char>
    decreases s.len(),
{
    if s.len() == 0 {
        Seq::empty()
    } else {
        flat(s.drop_last()) + s.last()
    }
}

/// `t` right-aligned in `width` columns.
pub open spec fn pad_left(t: Seq<char>, width: nat) -> Seq<char> {
    if t.len() >= width {
        t
    } else {
        Seq::new((width - t.len()) as nat, |i: int| ' ') + t
    }
}

fn padded(t: Vec<char>, width: usize) -> (r: Vec<char>)
    ensures
        r@ == pad_left(t@, width as nat),
{
    if t.len() >= width {
        return t;
    }
    let mut r: Vec<char> = Vec::new();
    let n = width - t.len();
    let mut i: usize = 0;
    while i < n
        invariant
            i <= n,
            n == width - t.len(),
            r@ == Seq::new(i as nat, |k: int| ' '),
        decreases n - i,
    {
        r.push(' ');
        i = i + 1;
        assert(r@ =~= Seq::new(i as nat, |k: int| ' '));
    }
    append(&mut r, &t);
    r
}

/// `n` in decimal, right-aligned in `width` columns.
pub fn number(n: u64, width: usize) -> (r: Vec<char>)
    ensures
        r@ == pad_left(dec_text(n as nat), width as nat),
{
    padded(decimal(n), width)
}

/// The text of a command that printed nothing: `empty` on a line of its own.
pub open spec fn or_empty_text(out: Seq<char>, empty: Seq<char>) -> Seq<char> {
    if out.len() == 0 {
        empty + "\n"@
    } else {
        out
    }
}

/// What a command prints: `out`, or `empty` on a line of its own when `out` is empty.
pub fn or_empty(out: Vec<char>, empty: &str) -> (s: String)
    ensures
        s@ == or_empty_text(out@, empty@),
{
    if out.len() == 0 {
        let mut v = chars_of(empty);
        v.push('\n');
        proof {
            reveal_strlit("\n");
        }
        string_of(&v)
    } else {
        string_of(&out)
    }
}

/// A group key with every leading `dgid:` taken off.
pub open spec fn bare_key(t: Seq<char>) -> Seq<char>
    decreases t.len(),
{
    if t.len() >= 5 && starts_with(t, "dgid:"@) {
        bare_key(t.skip(5))
    } else {
        t
    }
}

/// The first eight characters of a group key, without `dgid:`.
pub open spec fn short_key(t: Seq<char>) -> Seq<char> {
    let b = bare_key(t);
    if b.len() <= 8 {
        b
    } else {
        b.take(8)
    }
}

/// The first eight characters of a group key, without `dgid:`.
pub fn short(dgid: &str) -> (s: String)
    ensures
        s@ == short_key(dgid@),
{
    let mut t = chars_of(dgid);
    let p = chars_of("dgid:");
    proof {
        reveal_strlit("dgid:");
    }
    assert(bare_key(dgid@) == bare_key(t@));
    while t.len() >= 5 && crate::text::has_prefix(&t, &p)
        invariant
            p@ == "dgid:"@,
            bare_key(dgid@) == bare_key(t@),
        decreases t.len(),
    {
        t = crate::text::tail(&t, 5);
    }
    if t.len() <= 8 {
        string_of(&t)
    } else {
        string_of(&crate::text::slice(&t, 0, 8))
    }
}

pub open spec fn opt_or_empty(o: Option<String>) -> Seq<char> {
    match o {
        Some(t) => t@,
        None => Seq::empty(),
    }
}

/// An attestation's claim on one line.
pub open spec fn claim_text(a: AttestationView) -> Seq<char> {
    let signer = match a.signer {
        Some(s) => short_key(s@),
        None => "unsigned"@,
    };
    if a.kind@ == "content"@ {
        "content "@ + a.ci@ + " via "@ + opt_or_empty(a.td) + " -> "@ + opt_or_empty(a.blob) + "  by "@ + signer
    } else {
        a.kind@ + " "@ + a.ci@ + " -> "@ + opt_or_empty(a.other) + "  by "@ + signer
    }
}

fn push_opt(v: &mut Vec<char>, o: &Option<String>)
    ensures
        final(v)@ == old(v)@ + opt_or_empty(*o),
{
    match o {
        Some(t) => append(v, &chars_of(t.as_str())),
        None => {
            assert(old(v)@ + Seq::<char>::empty() =~= old(v)@);
        },
    }
}

/// An attestation's claim on one line.
pub fn claim_line(a: &AttestationView) -> (s: String)
    ensures
        s@ == claim_text(*a),
{
    let signer = match &a.signer {
        Some(s) => short(s.as_str()),
        None => owned("unsigned"),
    };
    let mut v: Vec<char>;
    if crate::record::same_text(a.kind.as_str(), "content") {
        v = chars_of("content ");
        append(&mut v, &chars_of(a.ci.as_str()));
        append(&mut v, &chars_of(" via "));
        push_opt(&mut v, &a.td);
        append(&mut v, &chars_of(" -> "));
        push_opt(&mut v, &a.blob);
    } else {
        v = chars_of(a.kind.as_str());
        append(&mut v, &chars_of(" "));
        append(&mut v, &chars_of(a.ci.as_str()));
        append(&mut v, &chars_of(" -> "));
        push_opt(&mut v, &a.other);
    }
    append(&mut v, &chars_of("  by "));
    append(&mut v, &chars_of(signer.as_str()));
    string_of(&v)
}

/// What publishing a collection prints: the ref and the head it now points at.
pub open spec fn published_text(name: Seq<char>, head: Seq<char>) -> Seq<char> {
    "refs/"@ + name + " -> col:"@ + head + "\n"@
}

/// What publishing a collection prints.
pub fn published(name: &str, head: &str) -> (s: String)
    ensures
        s@ == published_text(name@, head@),
{
    let mut v = chars_of("refs/");
    append(&mut v, &chars_of(name));
    append(&mut v, &chars_of(" -> col:"));
    append(&mut v, &chars_of(head));
    append(&mut v, &chars_of("\n"));
    string_of(&v)
}

/// What `identity` prints.
pub open spec fn identity_text(i: IdentityInfo) -> Seq<char> {
    "store: "@ + i.store@ + "\ndgid: "@ + i.dgid@ + "  (group key: "@ + i.key_path@ + ")\nnode id: "@ + i.node_id@
        + "  (device key: "@ + i.node_key_path@ + ")\n"@
}

/// What `identity` prints.
pub fn identity_lines(i: &IdentityInfo) -> (s: String)
    ensures
        s@ == identity_text(*i),
{
    let mut v = chars_of("store: ");
    append(&mut v, &chars_of(i.store.as_str()));
    append(&mut v, &chars_of("\ndgid: "));
    append(&mut v, &chars_of(i.dgid.as_str()));
    append(&mut v, &chars_of("  (group key: "));
    append(&mut v, &chars_of(i.key_path.as_str()));
    append(&mut v, &chars_of(")\nnode id: "));
    append(&mut v, &chars_of(i.node_id.as_str()));
    append(&mut v, &chars_of("  (device key: "));
    append(&mut v, &chars_of(i.node_key_path.as_str()));
    append(&mut v, &chars_of(")\n"));
    string_of(&v)
}

/// One line of `refs`.
pub open spec fn ref_line(r: RefInfo) -> Seq<char> {
    r.name@ + " -> "@ + r.hash@ + "  ["@ + r.kind@ + "]\n"@
}

/// What `refs` prints.
pub fn refs_text(refs: &Vec<RefInfo>) -> (s: String)
    ensures
        s@ == or_empty_text(flat(Seq::new(refs@.len(), |i: int| ref_line(refs@[i]))), "no refs"@),
{
    let mut v: Vec<char> = Vec::new();
    let mut i: usize = 0;
    while i < refs.len()
        invariant
            i <= refs.len(),
            v@ == flat(Seq::new(i as nat, |k: int| ref_line(refs@[k]))),
        decreases refs.len() - i,
    {
        let r = &refs[i];
        let mut line = chars_of(r.name.as_str());
        append(&mut line, &chars_of(" -> "));
        append(&mut line, &chars_of(r.hash.as_str()));
        append(&mut line, &chars_of("  ["));
        append(&mut line, &chars_of(r.kind.as_str()));
        append(&mut line, &chars_of("]\n"));
        append(&mut v, &line);
        let ghost s = Seq::new((i + 1) as nat, |k: int| ref_line(refs@[k]));
        assert(s.drop_last() =~= Seq::new(i as nat, |k: int| ref_line(refs@[k])));
        i = i + 1;
    }
    assert(Seq::new(i as nat, |k: int| ref_line(refs@[k])) =~= Seq::new(refs@.len(), |k: int| ref_line(refs@[k])));
    or_empty(v, "no refs")
}

/// One line of `blob list`: the hash, the size in eight columns, the kind.
pub open spec fn blob_line(b: BlobInfo) -> Seq<char> {
    b.hash@ + "  "@ + pad_left(dec_text(b.size as nat), 8) + "  "@ + b.kind@ + "\n"@
}

/// What `blob list` prints.
pub fn blobs_text(blobs: &Vec<BlobInfo>) -> (s: String)
    ensures
        s@ == or_empty_text(flat(Seq::new(blobs@.len(), |i: int| blob_line(blobs@[i]))), "no blobs"@),
{
    let mut v: Vec<char> = Vec::new();
    let mut i: usize = 0;
    while i < blobs.len()
        invariant
            i <= blobs.len(),
            v@ == flat(Seq::new(i as nat, |k: int| blob_line(blobs@[k]))),
        decreases blobs.len() - i,
    {
        let b = &blobs[i];
        let mut line = chars_of(b.hash.as_str());
        append(&mut line, &chars_of("  "));
        append(&mut line, &number(b.size, 8));
        append(&mut line, &chars_of("  "));
        append(&mut line, &chars_of(b.kind.as_str()));
        append(&mut line, &chars_of("\n"));
        append(&mut v, &line);
        let ghost s = Seq::new((i + 1) as nat, |k: int| blob_line(blobs@[k]));
        assert(s.drop_last() =~= Seq::new(i as nat, |k: int| blob_line(blobs@[k])));
        i = i + 1;
    }
    assert(Seq::new(i as nat, |k: int| blob_line(blobs@[k])) =~= Seq::new(blobs@.len(), |k: int| blob_line(blobs@[k])));
    or_empty(v, "no blobs")
}

/// What `record show` prints: the kind and address, the signer when there
/// is one and whether its signature verifies, then the body as JSON.
pub open spec fn record_text(kind: Seq<char>, address: Seq<char>, signer: Option<Seq<char>>, verified: bool, json: Seq<char>) -> Seq<char> {
    kind + "  "@ + address + "\n"@ + (match signer {
        Some(s) => "signer: "@ + s + " ("@ + (if verified {
            "signature verifies"@
        } else {
            "signature INVALID"@
        }) + ")\n"@,
        None => Seq::empty(),
    }) + json + "\n"@
}

/// What `record show` prints.
pub fn record_lines(kind: &str, address: &str, signer: Option<&str>, verified: bool, json: &str) -> (s: String)
    ensures
        s@ == record_text(
            kind@,
            address@,
            match signer {
                Some(t) => Some(t@),
                None => None,
            },
            verified,
            json@,
        ),
{
    let mut v = chars_of(kind);
    append(&mut v, &chars_of("  "));
    append(&mut v, &chars_of(address));
    append(&mut v, &chars_of("\n"));
    let ghost head = v@;
    match signer {
        Some(s) => {
            append(&mut v, &chars_of("signer: "));
            append(&mut v, &chars_of(s));
            append(&mut v, &chars_of(" ("));
            if verified {
                append(&mut v, &chars_of("signature verifies"));
            } else {
                append(&mut v, &chars_of("signature INVALID"));
            }
            append(&mut v, &chars_of(")\n"));
        },
        None => {
            assert(head + Seq::<char>::empty() =~= head);
        },
    }
    append(&mut v, &chars_of(json));
    append(&mut v, &chars_of("\n"));
    string_of(&v)
}

/// One line of `collection list`.
pub open spec fn summary_line(c: CollectionSummary) -> Seq<char> {
    c.name@ + "  col:"@ + c.head@ + "  owner "@ + short_key(c.owner@) + "  "@ + dec_text(c.items as nat)
        + " item(s), "@ + dec_text(c.attestations as nat) + " attestation(s), "@ + dec_text(c.closure as nat)
        + " blob(s) in closure\n"@
}

/// What `collection list` prints.
pub fn collections_text(list: &Vec<CollectionSummary>) -> (s: String)
    ensures
        s@ == or_empty_text(flat(Seq::new(list@.len(), |i: int| summary_line(list@[i]))), "no collections"@),
{
    let mut v: Vec<char> = Vec::new();
    let mut i: usize = 0;
    while i < list.len()
        invariant
            i <= list.len(),
            v@ == flat(Seq::new(i as nat, |k: int| summary_line(list@[k]))),
        decreases list.len() - i,
    {
        let c = &list[i];
        let mut line = chars_of(c.name.as_str());
        append(&mut line, &chars_of("  col:"));
        append(&mut line, &chars_of(c.head.as_str()));
        append(&mut line, &chars_of("  owner "));
        append(&mut line, &chars_of(short(c.owner.as_str()).as_str()));
        append(&mut line, &chars_of("  "));
        append(&mut line, &crate::lex::decimal_wide(c.items as u128));
        append(&mut line, &chars_of(" item(s), "));
        append(&mut line, &crate::lex::decimal_wide(c.attestations as u128));
        append(&mut line, &chars_of(" attestation(s), "));
        append(&mut line, &crate::lex::decimal_wide(c.closure as u128));
        append(&mut line, &chars_of(" blob(s) in closure\n"));
        append(&mut v, &line);
        let ghost s = Seq::new((i + 1) as nat, |k: int| summary_line(list@[k]));
        assert(s.drop_last() =~= Seq::new(i as nat, |k: int| summary_line(list@[k])));
        i = i + 1;
    }
    assert(Seq::new(i as nat, |k: int| summary_line(list@[k])) =~= Seq::new(list@.len(), |k: int| summary_line(list@[k])));
    or_empty(v, "no collections")
}

/// One item line of `collection show`: its place in three columns, its
/// identity and kind, then its label quoted and its default transform when
/// it has them.
pub open spec fn item_line(index: nat, it: ItemView) -> Seq<char> {
    "  "@ + pad_left(dec_text(index), 3) + "  "@ + it.ci@ + "  ["@ + it.kind@ + "]"@ + (match it.label {
        Some(l) => "  "@ + debug_quoted(l@),
        None => Seq::empty(),
    }) + (match it.default_td {
        Some(t) => "  default "@ + t@,
        None => Seq::empty(),
    }) + "\n"@
}

/// One attestation line of `collection show`.
pub open spec fn held_attestation_line(a: AttestationView) -> Seq<char> {
    "  att:"@ + a.hash@ + "  "@ + claim_text(a) + "\n"@
}

/// What `collection show` prints.
pub open spec fn collection_text(c: CollectionView) -> Seq<char> {
    "collection "@ + c.name@ + "  col:"@ + c.head@ + "\n"@ + "owner: "@ + c.owner@ + "\n"@ + (match c.forked_from {
        Some(o) => "forked from: "@ + o@ + "\n"@,
        None => Seq::empty(),
    }) + "items ("@ + dec_text(c.items@.len()) + "):\n"@ + flat(
        Seq::new(c.items@.len(), |i: int| item_line(i as nat, c.items@[i])),
    ) + "attestations ("@ + dec_text(c.attestations@.len()) + "):\n"@ + flat(
        Seq::new(c.attestations@.len(), |i: int| held_attestation_line(c.attestations@[i])),
    ) + "closure: "@ + dec_text(c.ops as nat) + " op(s), "@ + dec_text(c.records as nat) + " record(s), "@
        + dec_text(c.closure as nat) + " blob(s) total\n"@
}

/// What `collection show` prints.
#[verifier::spinoff_prover]
#[verifier::rlimit(40)]
pub fn collection_lines(c: &CollectionView) -> (s: String)
    ensures
        s@ == collection_text(*c),
{
    let mut v = chars_of("collection ");
    append(&mut v, &chars_of(c.name.as_str()));
    append(&mut v, &chars_of("  col:"));
    append(&mut v, &chars_of(c.head.as_str()));
    append(&mut v, &chars_of("\n"));
    append(&mut v, &chars_of("owner: "));
    append(&mut v, &chars_of(c.owner.as_str()));
    append(&mut v, &chars_of("\n"));
    let ghost a0 = v@;
    match &c.forked_from {
        Some(o) => {
            append(&mut v, &chars_of("forked from: "));
            append(&mut v, &chars_of(o.as_str()));
            append(&mut v, &chars_of("\n"));
        },
        None => {
            assert(a0 + Seq::<char>::empty() =~= a0);
        },
    }
    append(&mut v, &chars_of("items ("));
    append(&mut v, &crate::lex::decimal_wide(c.items.len() as u128));
    append(&mut v, &chars_of("):\n"));
    let ghost a1 = v@;
    let mut i: usize = 0;
    while i < c.items.len()
        invariant
            i <= c.items.len(),
            v@ == a1 + flat(Seq::new(i as nat, |k: int| item_line(k as nat, c.items@[k]))),
        decreases c.items.len() - i,
    {
        let it = &c.items[i];
        let mut line = chars_of("  ");
        append(&mut line, &padded(crate::lex::decimal_wide(i as u128), 3));
        append(&mut line, &chars_of("  "));
        append(&mut line, &chars_of(it.ci.as_str()));
        append(&mut line, &chars_of("  ["));
        append(&mut line, &chars_of(it.kind.as_str()));
        append(&mut line, &chars_of("]"));
        let ghost l0 = line@;
        match &it.label {
            Some(l) => {
                append(&mut line, &chars_of("  "));
                append(&mut line, &chars_of(quoted(l.as_str()).as_str()));
            },
            None => {
                assert(l0 + Seq::<char>::empty() =~= l0);
            },
        }
        let ghost l1 = line@;
        match &it.default_td {
            Some(t) => {
                append(&mut line, &chars_of("  default "));
                append(&mut line, &chars_of(t.as_str()));
            },
            None => {
                assert(l1 + Seq::<char>::empty() =~= l1);
            },
        }
        append(&mut line, &chars_of("\n"));
        assert(line@ == item_line(i as nat, c.items@[i as int]));
        append(&mut v, &line);
        let ghost s = Seq::new((i + 1) as nat, |k: int| item_line(k as nat, c.items@[k]));
        assert(s.drop_last() =~= Seq::new(i as nat, |k: int| item_line(k as nat, c.items@[k])));
        i = i + 1;
    }
    assert(Seq::new(i as nat, |k: int| item_line(k as nat, c.items@[k])) =~= Seq::new(
        c.items@.len(),
        |k: int| item_line(k as nat, c.items@[k]),
    ));
    append(&mut v, &chars_of("attestations ("));
    append(&mut v, &crate::lex::decimal_wide(c.attestations.len() as u128));
    append(&mut v, &chars_of("):\n"));
    let ghost a2 = v@;
    let mut j: usize = 0;
    while j < c.attestations.len()
        invariant
            j <= c.attestations.len(),
            v@ == a2 + flat(Seq::new(j as nat, |k: int| held_attestation_line(c.attestations@[k]))),
        decreases c.attestations.len() - j,
    {
        let a = &c.attestations[j];
        let mut line = chars_of("  att:");
        append(&mut line, &chars_of(a.hash.as_str()));
        append(&mut line, &chars_of("  "));
        append(&mut line, &chars_of(claim_line(a).as_str()));
        append(&mut line, &chars_of("\n"));
        append(&mut v, &line);
        let ghost s = Seq::new((j + 1) as nat, |k: int| held_attestation_line(c.attestations@[k]));
        assert(s.drop_last() =~= Seq::new(j as nat, |k: int| held_attestation_line(c.attestations@[k])));
        j = j + 1;
    }
    assert(Seq::new(j as nat, |k: int| held_attestation_line(c.attestations@[k])) =~= Seq::new(
        c.attestations@.len(),
        |k: int| held_attestation_line(c.attestations@[k]),
    ));
    append(&mut v, &chars_of("closure: "));
    append(&mut v, &crate::lex::decimal_wide(c.ops as u128));
    append(&mut v, &chars_of(" op(s), "));
    append(&mut v, &crate::lex::decimal_wide(c.records as u128));
    append(&mut v, &chars_of(" record(s), "));
    append(&mut v, &crate::lex::decimal_wide(c.closure as u128));
    append(&mut v, &chars_of(" blob(s) total\n"));
    assert(v@ =~= collection_text(*c));
    string_of(&v)
}

/// One line of `collection ops`.
pub open spec fn op_line(o: OpView) -> Seq<char> {
    "seq "@ + pad_left(dec_text(o.seq as nat), 3) + "  "@ + o.hash@ + "  "@ + o.kind@ + " "@ + o.target@ + "  ["@
        + (if o.counted {
        "owner-signed"@
    } else {
        "ignored by fold"@
    }) + "]\n"@
}

/// What `collection ops` prints.
pub fn ops_text(ops: &Vec<OpView>) -> (s: String)
    ensures
        s@ == or_empty_text(flat(Seq::new(ops@.len(), |i: int| op_line(ops@[i]))), "no ops"@),
{
    let mut v: Vec<char> = Vec::new();
    let mut i: usize = 0;
    while i < ops.len()
        invariant
            i <= ops.len(),
            v@ == flat(Seq::new(i as nat, |k: int| op_line(ops@[k]))),
        decreases ops.len() - i,
    {
        let o = &ops[i];
        let mut line = chars_of("seq ");
        append(&mut line, &number(o.seq, 3));
        append(&mut line, &chars_of("  "));
        append(&mut line, &chars_of(o.hash.as_str()));
        append(&mut line, &chars_of("  "));
        append(&mut line, &chars_of(o.kind.as_str()));
        append(&mut line, &chars_of(" "));
        append(&mut line, &chars_of(o.target.as_str()));
        append(&mut line, &chars_of("  ["));
        if o.counted {
            append(&mut line, &chars_of("owner-signed"));
        } else {
            append(&mut line, &chars_of("ignored by fold"));
        }
        append(&mut line, &chars_of("]\n"));
        append(&mut v, &line);
        let ghost s = Seq::new((i + 1) as nat, |k: int| op_line(ops@[k]));
        assert(s.drop_last() =~= Seq::new(i as nat, |k: int| op_line(ops@[k])));
        i = i + 1;
    }
    assert(Seq::new(i as nat, |k: int| op_line(ops@[k])) =~= Seq::new(ops@.len(), |k: int| op_line(ops@[k])));
    or_empty(v, "no ops")
}

pub open spec fn owner_line(c: crate::ops::CollectionOwner) -> Seq<char> {
    "  "@ + c.name@ + "  owner "@ + c.owner@ + "\n"@
}

pub open spec fn linked_line(other: String) -> Seq<char> {
    "    linked from "@ + other@ + "\n"@
}

pub open spec fn trusted_claim_line(a: AttestationView) -> Seq<char> {
    "    "@ + claim_text(a) + "  trust "@ + a.level@ + "\n"@
}

/// The lines of one content identity in `index`.
pub open spec fn identity_block(e: crate::ops::IdentityEntry) -> Seq<char> {
    "  "@ + e.ci@ + "  ["@ + e.kind@ + "]\n"@ + flat(Seq::new(e.linked_from@.len(), |i: int| linked_line(e.linked_from@[i])))
        + flat(Seq::new(e.attestations@.len(), |i: int| trusted_claim_line(e.attestations@[i])))
}

pub open spec fn external_line(x: crate::ops::ExternalId) -> Seq<char> {
    "  "@ + x.key@ + "="@ + x.value@ + "  "@ + x.ci@ + "\n"@
}

/// What `index` prints.
pub open spec fn index_text(v: IndexView) -> Seq<char> {
    "collections:\n"@ + flat(Seq::new(v.collections@.len(), |i: int| owner_line(v.collections@[i])))
        + "content identities:\n"@ + flat(Seq::new(v.identities@.len(), |i: int| identity_block(v.identities@[i])))
        + "external ids:\n"@ + flat(Seq::new(v.externals@.len(), |i: int| external_line(v.externals@[i])))
}

#[verifier::spinoff_prover]
#[verifier::rlimit(40)]
fn identity_lines_of(e: &crate::ops::IdentityEntry) -> (r: Vec<char>)
    ensures
        r@ == identity_block(*e),
{
    let mut v = chars_of("  ");
    append(&mut v, &chars_of(e.ci.as_str()));
    append(&mut v, &chars_of("  ["));
    append(&mut v, &chars_of(e.kind.as_str()));
    append(&mut v, &chars_of("]\n"));
    let ghost a0 = v@;
    let mut i: usize = 0;
    while i < e.linked_from.len()
        invariant
            i <= e.linked_from.len(),
            v@ == a0 + flat(Seq::new(i as nat, |k: int| linked_line(e.linked_from@[k]))),
        decreases e.linked_from.len() - i,
    {
        let mut line = chars_of("    linked from ");
        append(&mut line, &chars_of(e.linked_from[i].as_str()));
        append(&mut line, &chars_of("\n"));
        append(&mut v, &line);
        let ghost s = Seq::new((i + 1) as nat, |k: int| linked_line(e.linked_from@[k]));
        assert(s.drop_last() =~= Seq::new(i as nat, |k: int| linked_line(e.linked_from@[k])));
        i = i + 1;
    }
    assert(Seq::new(i as nat, |k: int| linked_line(e.linked_from@[k])) =~= Seq::new(
        e.linked_from@.len(),
        |k: int| linked_line(e.linked_from@[k]),
    ));
    let ghost a1 = v@;
    let mut j: usize = 0;
    while j < e.attestations.len()
        invariant
            j <= e.attestations.len(),
            v@ == a1 + flat(Seq::new(j as nat, |k: int| trusted_claim_line(e.attestations@[k]))),
        decreases e.attestations.len() - j,
    {
        let mut line = chars_of("    ");
        append(&mut line, &chars_of(claim_line(&e.attestations[j]).as_str()));
        append(&mut line, &chars_of("  trust "));
        append(&mut line, &chars_of(e.attestations[j].level.as_str()));
        append(&mut line, &chars_of("\n"));
        append(&mut v, &line);
        let ghost s = Seq::new((j + 1) as nat, |k: int| trusted_claim_line(e.attestations@[k]));
        assert(s.drop_last() =~= Seq::new(j as nat, |k: int| trusted_claim_line(e.attestations@[k])));
        j = j + 1;
    }
    assert(Seq::new(j as nat, |k: int| trusted_claim_line(e.attestations@[k])) =~= Seq::new(
        e.attestations@.len(),
        |k: int| trusted_claim_line(e.attestations@[k]),
    ));
    v
}

/// What `index` prints.
#[verifier::spinoff_prover]
#[verifier::rlimit(40)]
pub fn index_lines(view: &IndexView) -> (s: String)
    ensures
        s@ == index_text(*view),
{
    let mut v = chars_of("collections:\n");
    let ghost a0 = v@;
    let mut i: usize = 0;
    while i < view.collections.len()
        invariant
            i <= view.collections.len(),
            v@ == a0 + flat(Seq::new(i as nat, |k: int| owner_line(view.collections@[k]))),
        decreases view.collections.len() - i,
    {
        let c = &view.collections[i];
        let mut line = chars_of("  ");
        append(&mut line, &chars_of(c.name.as_str()));
        append(&mut line, &chars_of("  owner "));
        append(&mut line, &chars_of(c.owner.as_str()));
        append(&mut line, &chars_of("\n"));
        append(&mut v, &line);
        let ghost s = Seq::new((i + 1) as nat, |k: int| owner_line(view.collections@[k]));
        assert(s.drop_last() =~= Seq::new(i as nat, |k: int| owner_line(view.collections@[k])));
        i = i + 1;
    }
    assert(Seq::new(i as nat, |k: int| owner_line(view.collections@[k])) =~= Seq::new(
        view.collections@.len(),
        |k: int| owner_line(view.collections@[k]),
    ));
    append(&mut v, &chars_of("content identities:\n"));
    let ghost a1 = v@;
    let mut j: usize = 0;
    while j < view.identities.len()
        invariant
            j <= view.identities.len(),
            v@ == a1 + flat(Seq::new(j as nat, |k: int| identity_block(view.identities@[k]))),
        decreases view.identities.len() - j,
    {
        append(&mut v, &identity_lines_of(&view.identities[j]));
        let ghost s = Seq::new((j + 1) as nat, |k: int| identity_block(view.identities@[k]));
        assert(s.drop_last() =~= Seq::new(j as nat, |k: int| identity_block(view.identities@[k])));
        j = j + 1;
    }
    assert(Seq::new(j as nat, |k: int| identity_block(view.identities@[k])) =~= Seq::new(
        view.identities@.len(),
        |k: int| identity_block(view.identities@[k]),
    ));
    append(&mut v, &chars_of("external ids:\n"));
    let ghost a2 = v@;
    let mut m: usize = 0;
    while m < view.externals.len()
        invariant
            m <= view.externals.len(),
            v@ == a2 + flat(Seq::new(m as nat, |k: int| external_line(view.externals@[k]))),
        decreases view.externals.len() - m,
    {
        let x = &view.externals[m];
        let mut line = chars_of("  ");
        append(&mut line, &chars_of(x.key.as_str()));
        append(&mut line, &chars_of("="));
        append(&mut line, &chars_of(x.value.as_str()));
        append(&mut line, &chars_of("  "));
        append(&mut line, &chars_of(x.ci.as_str()));
        append(&mut line, &chars_of("\n"));
        append(&mut v, &line);
        let ghost s = Seq::new((m + 1) as nat, |k: int| external_line(view.externals@[k]));
        assert(s.drop_last() =~= Seq::new(m as nat, |k: int| external_line(view.externals@[k])));
        m = m + 1;
    }
    assert(Seq::new(m as nat, |k: int| external_line(view.externals@[k])) =~= Seq::new(
        view.externals@.len(),
        |k: int| external_line(view.externals@[k]),
    ));
    assert(v@ =~= index_text(*view));
    string_of(&v)
}

/// One candidate line of `resolve`.
pub open spec fn artifact_line(a: Artifact) -> Seq<char> {
    "  blob:"@ + a.blob@ + "  "@ + a.td_kind@ + (match a.variant {
        Some(v) => " / "@ + v@,
        None => Seq::empty(),
    }) + "  signer "@ + (match a.signer {
        Some(s) => short_key(s@),
        None => "invalid"@,
    }) + "  trust "@ + a.level@ + "  "@ + (if a.expired {
        "expired"@
    } else if a.held {
        "held"@
    } else {
        "not held"@
    }) + "\n"@
}

pub open spec fn relation_line(a: AttestationView) -> Seq<char> {
    "  "@ + claim_text(a) + "\n"@
}

/// The pick line of `resolve`.
pub open spec fn pick_line(pick: Option<Pick>, minimum: Seq<char>) -> Seq<char> {
    match pick {
        Some(p) => "pick (minimum "@ + minimum + "): blob:"@ + p.blob@ + "  signer "@ + short_key(p.signer@) + "  "@ + (
        if p.held {
            "held"@
        } else {
            "not held"@
        }) + "\n"@,
        None => "pick (minimum "@ + minimum + "): none\n"@,
    }
}

/// What `resolve` prints.
pub open spec fn resolve_text(
    ci: Seq<char>,
    kind: Seq<char>,
    artifacts: Seq<Artifact>,
    relations: Seq<AttestationView>,
    pick: Option<Pick>,
    minimum: Seq<char>,
) -> Seq<char> {
    ci + "  ["@ + kind + "]\ncandidates:\n"@ + flat(Seq::new(artifacts.len(), |i: int| artifact_line(artifacts[i])))
        + flat(Seq::new(relations.len(), |i: int| relation_line(relations[i]))) + pick_line(pick, minimum)
}

/// What `resolve` prints.
#[verifier::spinoff_prover]
#[verifier::rlimit(40)]
pub fn resolve_lines(
    ci: &str,
    kind: &str,
    artifacts: &Vec<Artifact>,
    relations: &Vec<AttestationView>,
    pick: &Option<Pick>,
    minimum: &str,
) -> (s: String)
    ensures
        s@ == resolve_text(ci@, kind@, artifacts@, relations@, *pick, minimum@),
{
    let mut v = chars_of(ci);
    append(&mut v, &chars_of("  ["));
    append(&mut v, &chars_of(kind));
    append(&mut v, &chars_of("]\ncandidates:\n"));
    let ghost a0 = v@;
    let mut i: usize = 0;
    while i < artifacts.len()
        invariant
            i <= artifacts.len(),
            v@ == a0 + flat(Seq::new(i as nat, |k: int| artifact_line(artifacts@[k]))),
        decreases artifacts.len() - i,
    {
        let a = &artifacts[i];
        let mut line = chars_of("  blob:");
        append(&mut line, &chars_of(a.blob.as_str()));
        append(&mut line, &chars_of("  "));
        append(&mut line, &chars_of(a.td_kind.as_str()));
        let ghost l0 = line@;
        match &a.variant {
            Some(x) => {
                append(&mut line, &chars_of(" / "));
                append(&mut line, &chars_of(x.as_str()));
            },
            None => {
                assert(l0 + Seq::<char>::empty() =~= l0);
            },
        }
        append(&mut line, &chars_of("  signer "));
        match &a.signer {
            Some(x) => append(&mut line, &chars_of(short(x.as_str()).as_str())),
            None => append(&mut line, &chars_of("invalid")),
        }
        append(&mut line, &chars_of("  trust "));
        append(&mut line, &chars_of(a.level.as_str()));
        append(&mut line, &chars_of("  "));
        if a.expired {
            append(&mut line, &chars_of("expired"));
        } else if a.held {
            append(&mut line, &chars_of("held"));
        } else {
            append(&mut line, &chars_of("not held"));
        }
        append(&mut line, &chars_of("\n"));
        assert(line@ == artifact_line(artifacts@[i as int]));
        append(&mut v, &line);
        let ghost s = Seq::new((i + 1) as nat, |k: int| artifact_line(artifacts@[k]));
        assert(s.drop_last() =~= Seq::new(i as nat, |k: int| artifact_line(artifacts@[k])));
        i = i + 1;
    }
    assert(Seq::new(i as nat, |k: int| artifact_line(artifacts@[k])) =~= Seq::new(
        artifacts@.len(),
        |k: int| artifact_line(artifacts@[k]),
    ));
    let ghost a1 = v@;
    let mut j: usize = 0;
    while j < relations.len()
        invariant
            j <= relations.len(),
            v@ == a1 + flat(Seq::new(j as nat, |k: int| relation_line(relations@[k]))),
        decreases relations.len() - j,
    {
        let mut line = chars_of("  ");
        append(&mut line, &chars_of(claim_line(&relations[j]).as_str()));
        append(&mut line, &chars_of("\n"));
        append(&mut v, &line);
        let ghost s = Seq::new((j + 1) as nat, |k: int| relation_line(relations@[k]));
        assert(s.drop_last() =~= Seq::new(j as nat, |k: int| relation_line(relations@[k])));
        j = j + 1;
    }
    assert(Seq::new(j as nat, |k: int| relation_line(relations@[k])) =~= Seq::new(
        relations@.len(),
        |k: int| relation_line(relations@[k]),
    ));
    append(&mut v, &chars_of("pick (minimum "));
    append(&mut v, &chars_of(minimum));
    match pick {
        Some(p) => {
            append(&mut v, &chars_of("): blob:"));
            append(&mut v, &chars_of(p.blob.as_str()));
            append(&mut v, &chars_of("  signer "));
            append(&mut v, &chars_of(short(p.signer.as_str()).as_str()));
            append(&mut v, &chars_of("  "));
            if p.held {
                append(&mut v, &chars_of("held"));
            } else {
                append(&mut v, &chars_of("not held"));
            }
            append(&mut v, &chars_of("\n"));
        },
        None => {
            append(&mut v, &chars_of("): none\n"));
        },
    }
    assert(v@ =~= resolve_text(ci@, kind@, artifacts@, relations@, *pick, minimum@));
    string_of(&v)
}

/// One line of `members`.
pub open spec fn member_line(m: MemberView) -> Seq<char> {
    m.node_id@ + "  "@ + (if m.verified {
        "verified"@
    } else {
        "UNVERIFIED"@
    }) + (if m.expired {
        ", expired"@
    } else {
        Seq::empty()
    }) + (if m.this_device {
        "  (this device)"@
    } else {
        Seq::empty()
    }) + "\n"@
}

/// What `members` prints.
#[verifier::spinoff_prover]
#[verifier::rlimit(40)]
pub fn members_text(members: &Vec<MemberView>) -> (s: String)
    ensures
        s@ == or_empty_text(
            flat(Seq::new(members@.len(), |i: int| member_line(members@[i]))),
            "no members; the group collection is empty"@,
        ),
{
    let mut v: Vec<char> = Vec::new();
    let mut i: usize = 0;
    while i < members.len()
        invariant
            i <= members.len(),
            v@ == flat(Seq::new(i as nat, |k: int| member_line(members@[k]))),
        decreases members.len() - i,
    {
        let m = &members[i];
        let mut line = chars_of(m.node_id.as_str());
        append(&mut line, &chars_of("  "));
        if m.verified {
            append(&mut line, &chars_of("verified"));
        } else {
            append(&mut line, &chars_of("UNVERIFIED"));
        }
        let ghost l0 = line@;
        if m.expired {
            append(&mut line, &chars_of(", expired"));
        } else {
            assert(l0 + Seq::<char>::empty() =~= l0);
        }
        let ghost l1 = line@;
        if m.this_device {
            append(&mut line, &chars_of("  (this device)"));
        } else {
            assert(l1 + Seq::<char>::empty() =~= l1);
        }
        append(&mut line, &chars_of("\n"));
        assert(line@ == member_line(members@[i as int]));
        append(&mut v, &line);
        let ghost s = Seq::new((i + 1) as nat, |k: int| member_line(members@[k]));
        assert(s.drop_last() =~= Seq::new(i as nat, |k: int| member_line(members@[k])));
        i = i + 1;
    }
    assert(Seq::new(i as nat, |k: int| member_line(members@[k])) =~= Seq::new(members@.len(), |k: int| member_line(members@[k])));
    or_empty(v, "no members; the group collection is empty")
}

/// What `revoke` prints: the new head of the group, or that the node is no member.
pub open spec fn revoke_text(node: Seq<char>, head: Option<Seq<char>>) -> Seq<char> {
    match head {
        Some(h) => "revoked "@ + node + "; refs/device-group -> col:"@ + h + "\n"@,
        None => node + " is not a member\n"@,
    }
}

/// What `revoke` prints.
pub fn revoke_lines(node: &str, head: Option<&str>) -> (s: String)
    ensures
        s@ == revoke_text(
            node@,
            match head {
                Some(h) => Some(h@),
                None => None,
            },
        ),
{
    match head {
        Some(h) => {
            let mut v = chars_of("revoked ");
            append(&mut v, &chars_of(node));
            append(&mut v, &chars_of("; refs/device-group -> col:"));
            append(&mut v, &chars_of(h));
            append(&mut v, &chars_of("\n"));
            string_of(&v)
        },
        None => {
            let mut v = chars_of(node);
            append(&mut v, &chars_of(" is not a member\n"));
            string_of(&v)
        },
    }
}

/// One line of `trust`: the store's own key first, as mesh.
pub open spec fn trust_line(index: int, e: TrustEntry) -> Seq<char> {
    if index == 0 {
        "own: "@ + e.dgid@ + " (mesh)\n"@
    } else {
        e.dgid@ + " "@ + e.level@ + "\n"@
    }
}

/// What `trust` prints.
pub fn trust_text(entries: &Vec<TrustEntry>) -> (s: String)
    ensures
        s@ == flat(Seq::new(entries@.len(), |i: int| trust_line(i, entries@[i]))),
{
    let mut v: Vec<char> = Vec::new();
    let mut i: usize = 0;
    while i < entries.len()
        invariant
            i <= entries.len(),
            v@ == flat(Seq::new(i as nat, |k: int| trust_line(k, entries@[k]))),
        decreases entries.len() - i,
    {
        let e = &entries[i];
        let line = if i == 0 {
            let mut l = chars_of("own: ");
            append(&mut l, &chars_of(e.dgid.as_str()));
            append(&mut l, &chars_of(" (mesh)\n"));
            l
        } else {
            let mut l = chars_of(e.dgid.as_str());
            append(&mut l, &chars_of(" "));
            append(&mut l, &chars_of(e.level.as_str()));
            append(&mut l, &chars_of("\n"));
            l
        };
        append(&mut v, &line);
        let ghost s = Seq::new((i + 1) as nat, |k: int| trust_line(k, entries@[k]));
        assert(s.drop_last() =~= Seq::new(i as nat, |k: int| trust_line(k, entries@[k])));
        i = i + 1;
    }
    assert(Seq::new(i as nat, |k: int| trust_line(k, entries@[k])) =~= Seq::new(entries@.len(), |k: int| trust_line(k, entries@[k])));
    string_of(&v)
}

/// What `lock` prints: the locked transform, how many inputs it pins and how many were fetched.
pub open spec fn lock_text(td: Seq<char>, pinned: nat, fetched: nat) -> Seq<char> {
    td + "\n"@ + dec_text(pinned) + " input(s) pinned, "@ + dec_text(fetched) + " fetched\n"@
}

/// What `lock` prints.
pub fn lock_lines(td: &str, pinned: usize, fetched: usize) -> (s: String)
    ensures
        s@ == lock_text(td@, pinned as nat, fetched as nat),
{
    let mut v = chars_of(td);
    append(&mut v, &chars_of("\n"));
    append(&mut v, &crate::lex::decimal_wide(pinned as u128));
    append(&mut v, &chars_of(" input(s) pinned, "));
    append(&mut v, &crate::lex::decimal_wide(fetched as u128));
    append(&mut v, &chars_of(" fetched\n"));
    string_of(&v)
}

/// What `run` prints: the output blob, the attestation, and how many rounds
/// through which transform.
pub open spec fn ran_text(blob: Seq<char>, att: Seq<char>, rounds: nat, td: Seq<char>) -> Seq<char> {
    "blob:"@ + blob + "\n"@ + att + "\n"@ + dec_text(rounds) + " round(s) via "@ + td + "\n"@
}

/// What `run` prints.
pub fn ran_lines(blob: &str, att: &str, rounds: usize, td: &str) -> (s: String)
    ensures
        s@ == ran_text(blob@, att@, rounds as nat, td@),
{
    let mut v = chars_of("blob:");
    append(&mut v, &chars_of(blob));
    append(&mut v, &chars_of("\n"));
    append(&mut v, &chars_of(att));
    append(&mut v, &chars_of("\n"));
    append(&mut v, &crate::lex::decimal_wide(rounds as u128));
    append(&mut v, &chars_of(" round(s) via "));
    append(&mut v, &chars_of(td));
    append(&mut v, &chars_of("\n"));
    string_of(&v)
}

/// What `blob get --out` prints.
pub open spec fn wrote_text(n: nat, path: Seq<char>) -> Seq<char> {
    "wrote "@ + dec_text(n) + " bytes to "@ + path + "\n"@
}

/// What `blob get --out` prints.
pub fn wrote_lines(n: usize, path: &str) -> (s: String)
    ensures
        s@ == wrote_text(n as nat, path@),
{
    let mut v = chars_of("wrote ");
    append(&mut v, &crate::lex::decimal_wide(n as u128));
    append(&mut v, &chars_of(" bytes to "));
    append(&mut v, &chars_of(path));
    append(&mut v, &chars_of("\n"));
    string_of(&v)
}

/// What `trust <who> <level>` prints.
pub open spec fn trust_set_text(dgid: Seq<char>, level: Seq<char>) -> Seq<char> {
    dgid + " "@ + level + "\n"@
}

/// What `trust <who> <level>` prints.
pub fn trust_set_lines(dgid: &str, level: &str) -> (s: String)
    ensures
        s@ == trust_set_text(dgid@, level@),
{
    let mut v = chars_of(dgid);
    append(&mut v, &chars_of(" "));
    append(&mut v, &chars_of(level));
    append(&mut v, &chars_of("\n"));
    string_of(&v)
}

} // verus!
