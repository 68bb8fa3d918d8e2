//! Editing a collection: opening it from its head and operations, adding and
//! removing items, carrying attestations and records, and signing what
//! changed into new operations and a new head.
use vstd::prelude::*;
use crate::address::CiHash;
use crate::collection::{
    Collection, CollectionV, Item, ItemV, Op, OpV, OpKind, OpClaimV, first_ci, without_ci, fold, fold_spec,
    item_views, op_views, find_ci, drop_ci, copy_items, copy_hashes, lemma_first_ci, signed_op, COLLECTION_KIND,
};
use crate::fields::hash_views;
use crate::identity::{Dgid, Identity, ed25519_public};
use crate::collection::{op_address, op_claim_data, head_refs, COLLECTION_RECORD};
use crate::record::canon_ok;
use crate::store::BlobHash;
use crate::text::owned;

verus! {

/// An edit not yet signed.
#[derive(Debug, Clone)]
pub enum Draft {
    Add(Item),
    Remove(CiHash),
}

pub enum DraftV {
    Add(ItemV),
    Remove(Seq<u8>),
}

impl View for Draft {
    type V = DraftV;

    open spec fn view(&self) -> DraftV {
        match self {
            Draft::Add(i) => DraftV::Add(i@),
            Draft::Remove(c) => DraftV::Remove(c.0@),
        }
    }
}

/// The identity an edit is about.
pub open spec fn draft_ci(d: DraftV) -> Seq<u8> {
    match d {
        DraftV::Add(i) => i.ci,
        DraftV::Remove(c) => c,
    }
}

/// The edits not about `ci`, in order.
pub open spec fn drafts_without(ds: Seq<DraftV>, ci: Seq<u8>) -> Seq<DraftV>
    decreases ds.len(),
{
    if ds.len() == 0 {
        Seq::empty()
    } else {
        let r = drafts_without(ds.drop_last(), ci);
        if draft_ci(ds.last()) == ci {
            r
        } else {
            r.push(ds.last())
        }
    }
}

/// The hashes other than `h`, in order.
pub open spec fn hashes_without(hs: Seq<Seq<u8>>, h: Seq<u8>) -> Seq<Seq<u8>>
    decreases hs.len(),
{
    if hs.len() == 0 {
        Seq::empty()
    } else {
        let r = hashes_without(hs.drop_last(), h);
        if hs.last() == h {
            r
        } else {
            r.push(hs.last())
        }
    }
}

/// The items with `it` put in: in place of the first item with its identity,
/// else at the end.
pub open spec fn put_item(items: Seq<ItemV>, it: ItemV) -> Seq<ItemV> {
    match first_ci(items, it.ci) {
        Some(p) => items.update(p, it),
        None => items.push(it),
    }
}

/// The highest sequence number among `ops`, or 0.
pub open spec fn max_seq(ops: Seq<OpV>) -> u64
    decreases ops.len(),
{
    if ops.len() == 0 {
        0
    } else {
        let m = max_seq(ops.drop_last());
        if ops.last().claim.seq > m {
            ops.last().claim.seq
        } else {
            m
        }
    }
}

/// What a builder holds.
pub struct BuilderV {
    pub kind: Seq<char>,
    pub name: Seq<char>,
    pub owner: Seq<u8>,
    pub forked_from: Option<Seq<u8>>,
    pub items: Seq<ItemV>,
    pub baseline: Set<Seq<u8>>,
    pub ops: Seq<Seq<u8>>,
    pub next_seq: u64,
    pub pending: Seq<DraftV>,
    pub attestations: Seq<Seq<u8>>,
    pub records: Seq<Seq<u8>>,
}

pub open spec fn draft_views(ds: Seq<Draft>) -> Seq<DraftV> {
    Seq::new(ds.len(), |i: int| ds[i]@)
}

pub open spec fn ci_set(cs: Seq<CiHash>) -> Set<Seq<u8>> {
    Set::new(|c: Seq<u8>| exists|i: int| 0 <= i < cs.len() && cs[i].0@ == c)
}

/// The builder opened on `name` by the group `me`: a new collection when
/// nothing is loaded; otherwise the folded items of the loaded head, numbered
/// on from its highest operation, and, when `me` does not own it, a fork
/// that re-adds every item under `me`.
pub open spec fn open_spec(loaded: Option<(CollectionV, Seq<OpV>)>, name: Seq<char>, me: Seq<u8>) -> BuilderV {
    match loaded {
        None => BuilderV {
            kind: COLLECTION_KIND@,
            name,
            owner: me,
            forked_from: None,
            items: Seq::empty(),
            baseline: Set::empty(),
            ops: Seq::empty(),
            next_seq: 1,
            pending: Seq::empty(),
            attestations: Seq::empty(),
            records: Seq::empty(),
        },
        Some((head, ops)) => {
            let items = fold_spec(head.owner, ops);
            let forking = head.owner != me;
            BuilderV {
                kind: head.kind,
                name,
                owner: me,
                forked_from: if forking {
                    Some(head.owner)
                } else {
                    None
                },
                items,
                baseline: if forking {
                    Set::empty()
                } else {
                    Set::new(|c: Seq<u8>| exists|i: int| 0 <= i < items.len() && items[i].ci == c)
                },
                ops: head.ops,
                next_seq: (max_seq(ops) + 1) as u64,
                pending: if forking {
                    Seq::new(items.len(), |i: int| DraftV::Add(items[i]))
                } else {
                    Seq::empty()
                },
                attestations: head.attestations,
                records: head.records,
            }
        },
    }
}

/// The builder with its kind set to `kind`.
pub open spec fn kind_set(b: BuilderV, kind: Seq<char>) -> BuilderV {
    BuilderV { kind, ..b }
}

/// The builder with `it` put in, and its edit waiting in place of any
/// earlier edit of its identity.
pub open spec fn item_added(b: BuilderV, it: ItemV) -> BuilderV {
    BuilderV {
        items: put_item(b.items, it),
        pending: drafts_without(b.pending, it.ci).push(DraftV::Add(it)),
        ..b
    }
}

/// The builder without the items of identity `ci`; the removal waits to be
/// signed only if the collection held `ci` when last published or opened.
pub open spec fn item_removed(b: BuilderV, ci: Seq<u8>) -> BuilderV {
    BuilderV {
        items: without_ci(b.items, ci),
        pending: if b.baseline.contains(ci) {
            drafts_without(b.pending, ci).push(DraftV::Remove(ci))
        } else {
            drafts_without(b.pending, ci)
        },
        ..b
    }
}

/// The builder carrying `h` in its records, once.
pub open spec fn record_added(b: BuilderV, h: Seq<u8>) -> BuilderV {
    BuilderV {
        records: if b.records.contains(h) {
            b.records
        } else {
            b.records.push(h)
        },
        ..b
    }
}

/// Edits a collection.
pub struct Builder {
    kind: String,
    name: String,
    owner: Dgid,
    forked_from: Option<Dgid>,
    items: Vec<Item>,
    baseline: Vec<CiHash>,
    ops: Vec<BlobHash>,
    next_seq: u64,
    pending: Vec<Draft>,
    attestations: Vec<BlobHash>,
    records: Vec<BlobHash>,
}

impl View for Builder {
    type V = BuilderV;

    closed spec fn view(&self) -> BuilderV {
        BuilderV {
            kind: self.kind@,
            name: self.name@,
            owner: self.owner@,
            forked_from: match self.forked_from {
                Some(d) => Some(d@),
                None => None,
            },
            items: item_views(self.items@),
            baseline: ci_set(self.baseline@),
            ops: hash_views(self.ops@),
            next_seq: self.next_seq,
            pending: draft_views(self.pending@),
            attestations: hash_views(self.attestations@),
            records: hash_views(self.records@),
        }
    }
}

fn max_seq_of(ops: &Vec<Op>) -> (m: u64)
    ensures
        m == max_seq(op_views(ops@)),
{
    let ghost v = op_views(ops@);
    let mut m: u64 = 0;
    let mut i: usize = 0;
    assert(v.take(0) =~= Seq::<OpV>::empty());
    while i < ops.len()
        invariant
            v == op_views(ops@),
            i <= ops.len(),
            m == max_seq(v.take(i as int)),
        decreases ops.len() - i,
    {
        assert(v.take(i + 1).drop_last() =~= v.take(i as int));
        assert(v.take(i + 1).last() == ops@[i as int]@);
        if ops[i].claim.seq > m {
            m = ops[i].claim.seq;
        }
        i = i + 1;
    }
    assert(v.take(i as int) =~= v);
    m
}

fn contains_ci(cs: &Vec<CiHash>, ci: &CiHash) -> (r: bool)
    ensures
        r == ci_set(cs@).contains(ci.0@),
{
    let mut i: usize = 0;
    while i < cs.len()
        invariant
            i <= cs.len(),
            forall|j: int| 0 <= j < i ==> cs@[j].0@ != ci.0@,
        decreases cs.len() - i,
    {
        if cs[i].0 == ci.0 {
            return true;
        }
        i = i + 1;
    }
    false
}

fn contains_hash(hs: &Vec<BlobHash>, h: &BlobHash) -> (r: bool)
    ensures
        r == hash_views(hs@).contains(h@),
{
    let mut i: usize = 0;
    while i < hs.len()
        invariant
            i <= hs.len(),
            forall|j: int| 0 <= j < i ==> hs@[j]@ != h@,
        decreases hs.len() - i,
    {
        if hs[i] == *h {
            assert(hash_views(hs@)[i as int] == h@);
            return true;
        }
        i = i + 1;
    }
    assert(!hash_views(hs@).contains(h@)) by {
        if hash_views(hs@).contains(h@) {
            let j = choose|j: int| 0 <= j < hash_views(hs@).len() && hash_views(hs@)[j] == h@;
            assert(hs@[j]@ == h@);
        }
    }
    false
}

fn item_cis(items: &Vec<Item>) -> (cs: Vec<CiHash>)
    ensures
        ci_set(cs@) == Set::new(|c: Seq<u8>| exists|i: int| 0 <= i < items@.len() && item_views(items@)[i].ci == c),
{
    let mut cs: Vec<CiHash> = Vec::new();
    let mut i: usize = 0;
    while i < items.len()
        invariant
            i <= items.len(),
            cs@.len() == i,
            forall|j: int| 0 <= j < i ==> (#[trigger] cs@[j]).0@ == items@[j].ci.0@,
        decreases items.len() - i,
    {
        cs.push(items[i].ci);
        i = i + 1;
    }
    proof {
        assert forall|c: Seq<u8>| ci_set(cs@).contains(c) <==> (exists|i: int| 0 <= i < items@.len() && item_views(items@)[i].ci == c) by {
            if ci_set(cs@).contains(c) {
                let j = choose|j: int| 0 <= j < cs@.len() && cs@[j].0@ == c;
                assert(item_views(items@)[j].ci == c);
            }
            if exists|i: int| 0 <= i < items@.len() && item_views(items@)[i].ci == c {
                let j = choose|j: int| 0 <= j < items@.len() && item_views(items@)[j].ci == c;
                assert(cs@[j].0@ == c);
            }
        }
        assert(ci_set(cs@) =~= Set::new(|c: Seq<u8>| exists|i: int| 0 <= i < items@.len() && item_views(items@)[i].ci == c));
    }
    cs
}

impl Builder {
    /// Opens the collection `name` for the group `me`, from its loaded head
    /// and operations, if there are any.
    pub fn open(loaded: Option<(Collection, Vec<Op>)>, name: &str, me: Dgid) -> (b: Self)
        requires
            loaded matches Some((head, ops)) ==> max_seq(op_views(ops@)) < u64::MAX,
        ensures
            b@ == open_spec(
                match loaded {
                    Some((head, ops)) => Some((head@, op_views(ops@))),
                    None => None,
                },
                name@,
                me@,
            ),
    {
        match loaded {
            None => {
                let b = Builder {
                    kind: owned(COLLECTION_KIND),
                    name: owned(name),
                    owner: me,
                    forked_from: None,
                    items: Vec::new(),
                    baseline: Vec::new(),
                    ops: Vec::new(),
                    next_seq: 1,
                    pending: Vec::new(),
                    attestations: Vec::new(),
                    records: Vec::new(),
                };
                proof {
                    assert(item_views(b.items@) =~= Seq::<ItemV>::empty());
                    assert(ci_set(b.baseline@) =~= Set::<Seq<u8>>::empty());
                    assert(hash_views(b.ops@) =~= Seq::<Seq<u8>>::empty());
                    assert(hash_views(b.attestations@) =~= Seq::<Seq<u8>>::empty());
                    assert(hash_views(b.records@) =~= Seq::<Seq<u8>>::empty());
                    assert(draft_views(b.pending@) =~= Seq::<DraftV>::empty());
                }
                b
            },
            Some((head, ops)) => {
                let items = fold(head.owner, ops.as_slice());
                let next_seq = max_seq_of(&ops) + 1;
                let forking = !(head.owner == me);
                let mut pending: Vec<Draft> = Vec::new();
                let baseline: Vec<CiHash> = if forking {
                    let mut i: usize = 0;
                    while i < items.len()
                        invariant
                            i <= items.len(),
                            pending@.len() == i,
                            forall|j: int| 0 <= j < i ==> (#[trigger] pending@[j])@ == DraftV::Add(items@[j]@),
                        decreases items.len() - i,
                    {
                        pending.push(Draft::Add(items[i].copy()));
                        i = i + 1;
                    }
                    Vec::new()
                } else {
                    item_cis(&items)
                };
                let forked_from = if forking {
                    Some(head.owner)
                } else {
                    None
                };
                let b = Builder {
                    kind: head.kind,
                    name: owned(name),
                    owner: me,
                    forked_from,
                    items,
                    baseline,
                    ops: head.ops,
                    next_seq,
                    pending,
                    attestations: head.attestations,
                    records: head.records,
                };
                proof {
                    if forking {
                        assert(ci_set(b.baseline@) =~= Set::<Seq<u8>>::empty());
                        assert(draft_views(b.pending@) =~= Seq::new(
                            item_views(b.items@).len(),
                            |i: int| DraftV::Add(item_views(b.items@)[i]),
                        ));
                    } else {
                        assert(draft_views(b.pending@) =~= Seq::<DraftV>::empty());
                    }
                }
                b
            },
        }
    }

    /// Sets the collection's kind.
    pub fn kind(&mut self, kind: &str)
        ensures
            final(self)@ == kind_set(old(self)@, kind@),
    {
        self.kind = owned(kind);
    }

    /// Adds `item`, or replaces the item with its identity; the edit waits
    /// to be signed, in place of any earlier edit of that identity.
    pub fn add(&mut self, item: Item)
        ensures
            final(self)@ == item_added(old(self)@, item@),
    {
        let ghost before = item_views(self.items@);
        match find_ci(&self.items, &item.ci) {
            Some(p) => {
                proof {
                    lemma_first_ci(before, item.ci.0@);
                }
                self.items.set(p, item.copy());
                assert(item_views(self.items@) =~= before.update(p as int, item@));
            },
            None => {
                self.items.push(item.copy());
                assert(item_views(self.items@) =~= before.push(item@));
            },
        }
        self.drop_pending(&item.ci);
        let ghost mid = draft_views(self.pending@);
        self.pending.push(Draft::Add(item));
        assert(draft_views(self.pending@) =~= mid.push(DraftV::Add(item@)));
    }

    /// Drops every waiting edit of `ci`.
    fn drop_pending(&mut self, ci: &CiHash)
        ensures
            final(self)@ == (BuilderV { pending: drafts_without(old(self)@.pending, ci.0@), ..old(self)@ }),
    {
        let ghost v = draft_views(self.pending@);
        let mut out: Vec<Draft> = Vec::new();
        let mut i: usize = 0;
        assert(draft_views(out@) =~= drafts_without(v.take(0), ci.0@));
        while i < self.pending.len()
            invariant
                i <= self.pending.len(),
                v == draft_views(self.pending@),
                draft_views(out@) == drafts_without(v.take(i as int), ci.0@),
            decreases self.pending.len() - i,
        {
            let ghost mid = draft_views(out@);
            assert(v.take(i + 1).drop_last() =~= v.take(i as int));
            assert(v.take(i + 1).last() == self.pending@[i as int]@);
            let keep = match &self.pending[i] {
                Draft::Add(it) => !(it.ci.0 == ci.0),
                Draft::Remove(c) => !(c.0 == ci.0),
            };
            if keep {
                let d = match &self.pending[i] {
                    Draft::Add(it) => Draft::Add(it.copy()),
                    Draft::Remove(c) => Draft::Remove(*c),
                };
                out.push(d);
                assert(draft_views(out@) =~= mid.push(self.pending@[i as int]@));
            }
            i = i + 1;
        }
        assert(v.take(i as int) =~= v);
        self.pending = out;
    }

    /// Removes every item with identity `ci`; a removal waits to be signed
    /// only if the collection held `ci` when last published or opened.
    pub fn remove(&mut self, ci: CiHash)
        ensures
            final(self)@ == item_removed(old(self)@, ci.0@),
    {
        let out = drop_ci(&self.items, &ci);
        self.items = out;
        self.drop_pending(&ci);
        if contains_ci(&self.baseline, &ci) {
            let ghost mid = draft_views(self.pending@);
            self.pending.push(Draft::Remove(ci));
            assert(draft_views(self.pending@) =~= mid.push(DraftV::Remove(ci.0@)));
        }
    }

    /// Carries `hash` in the head's records, once.
    pub fn record(&mut self, hash: BlobHash)
        ensures
            final(self)@ == record_added(old(self)@, hash@),
    {
        if !contains_hash(&self.records, &hash) {
            let ghost mid = hash_views(self.records@);
            self.records.push(hash);
            assert(hash_views(self.records@) =~= mid.push(hash@));
        }
    }

    /// Carries the attestation `hash` in the head, as the newest one.
    pub fn attest(&mut self, hash: BlobHash)
        ensures
            final(self)@ == (BuilderV {
                attestations: hashes_without(old(self)@.attestations, hash@).push(hash@),
                ..old(self)@
            }),
    {
        let ghost v = hash_views(self.attestations@);
        let mut out: Vec<BlobHash> = Vec::new();
        let mut i: usize = 0;
        assert(hash_views(out@) =~= hashes_without(v.take(0), hash@));
        while i < self.attestations.len()
            invariant
                i <= self.attestations.len(),
                v == hash_views(self.attestations@),
                hash_views(out@) == hashes_without(v.take(i as int), hash@),
            decreases self.attestations.len() - i,
        {
            let ghost mid = hash_views(out@);
            assert(v.take(i + 1).drop_last() =~= v.take(i as int));
            assert(v.take(i + 1).last() == self.attestations@[i as int]@);
            if !(self.attestations[i] == hash) {
                out.push(self.attestations[i]);
                assert(hash_views(out@) =~= mid.push(self.attestations@[i as int]@));
            }
            i = i + 1;
        }
        assert(v.take(i as int) =~= v);
        let ghost mid = hash_views(out@);
        out.push(hash);
        assert(hash_views(out@) =~= mid.push(hash@));
        self.attestations = out;
    }

    pub fn items(&self) -> (r: &Vec<Item>)
        ensures
            item_views(r@) == self@.items,
    {
        &self.items
    }

    pub fn attestations(&self) -> (r: &Vec<BlobHash>)
        ensures
            hash_views(r@) == self@.attestations,
    {
        &self.attestations
    }

    pub fn forked_from(&self) -> (r: Option<Dgid>)
        ensures
            match r {
                Some(d) => self@.forked_from == Some(d@),
                None => self@.forked_from is None,
            },
    {
        self.forked_from
    }

    /// How many edits wait to be signed.
    pub fn pending(&self) -> (n: usize)
        ensures
            n == self@.pending.len(),
    {
        self.pending.len()
    }

    /// The sequence number the next signed edit takes.
    pub fn next_seq(&self) -> (n: u64)
        ensures
            n == self@.next_seq,
    {
        self.next_seq
    }
}

/// The claim an edit makes when signed as operation `seq` of `name` by `owner`.
pub open spec fn draft_claim(name: Seq<char>, owner: Seq<u8>, seq: int, d: DraftV) -> OpClaimV {
    match d {
        DraftV::Add(it) => OpClaimV {
            kind: OpKind::Add,
            collection: name,
            owner,
            seq: seq as u64,
            item: Some(it),
            target: None,
            order: None,
        },
        DraftV::Remove(c) => OpClaimV {
            kind: OpKind::Remove,
            collection: name,
            owner,
            seq: seq as u64,
            item: None,
            target: Some(c),
            order: None,
        },
    }
}

/// `hs` with each of `news` added in turn when not already there.
pub open spec fn append_new(hs: Seq<Seq<u8>>, news: Seq<Seq<u8>>) -> Seq<Seq<u8>>
    decreases news.len(),
{
    if news.len() == 0 {
        hs
    } else {
        let r = append_new(hs, news.drop_last());
        if r.contains(news.last()) {
            r
        } else {
            r.push(news.last())
        }
    }
}

/// The operations that sign the waiting edits in turn.
pub open spec fn signed_drafts(b: BuilderV, secret: Seq<u8>) -> Seq<OpV> {
    Seq::new(
        b.pending.len(),
        |i: int| signed_op(draft_claim(b.name, b.owner, b.next_seq + i, b.pending[i]), secret),
    )
}

/// The addresses of operations that all have one.
pub open spec fn addresses(ops: Seq<OpV>) -> Seq<Seq<u8>> {
    Seq::new(ops.len(), |i: int| op_address(ops[i])->0)
}

impl Builder {
    /// Signs the waiting edits as new operations, numbered on from the last,
    /// and makes the head that carries them with the collection's records and
    /// attestations. Storing the operations and the head is the caller's part.
    /// Only the group that opened the builder can sign its edits.
    pub fn prepare(&mut self, identity: &Identity) -> (r: Result<(Vec<Op>, Collection), String>)
        requires
            old(self)@.next_seq + old(self)@.pending.len() <= u64::MAX,
        ensures
            ed25519_public(identity.secret()) != old(self)@.owner ==> r is Err && final(self)@ == old(self)@,
            match r {
                Ok((ops, head)) => {
                    let signed = signed_drafts(old(self)@, identity.secret());
                    let all = append_new(old(self)@.ops, addresses(signed));
                    &&& ed25519_public(identity.secret()) == old(self)@.owner
                    &&& op_views(ops@) == signed
                    &&& forall|i: int| 0 <= i < signed.len() ==> (#[trigger] op_address(signed[i])) is Some
                    &&& final(self)@ == (BuilderV {
                        ops: all,
                        baseline: Set::new(
                            |c: Seq<u8>| exists|i: int| 0 <= i < old(self)@.items.len() && old(self)@.items[i].ci == c,
                        ),
                        next_seq: (old(self)@.next_seq + old(self)@.pending.len()) as u64,
                        pending: Seq::empty(),
                        ..old(self)@
                    })
                    &&& head@ == (CollectionV {
                        record: COLLECTION_RECORD@,
                        kind: old(self)@.kind,
                        name: old(self)@.name,
                        owner: old(self)@.owner,
                        forked_from: old(self)@.forked_from,
                        ops: all,
                        attestations: old(self)@.attestations,
                        records: old(self)@.records,
                        refs: head_refs(all, old(self)@.attestations, old(self)@.records),
                    })
                },
                Err(_) => ed25519_public(identity.secret()) != old(self)@.owner || (final(self)@.pending.len() == 0
                    && final(self)@.ops == old(self)@.ops && final(self)@.items == old(self)@.items && exists|i: int|
                    0 <= i < old(self)@.pending.len() && (!canon_ok(
                        op_claim_data(#[trigger] draft_claim(old(self)@.name, old(self)@.owner, old(self)@.next_seq + i, old(self)@.pending[i])),
                    ) || op_address(signed_drafts(old(self)@, identity.secret())[i]) is None)),
            },
    {
        let me = identity.dgid();
        if !(me == self.owner) {
            let mut m = crate::text::chars_of("collection ");
            crate::text::append(&mut m, &crate::text::chars_of(self.name.as_str()));
            crate::text::append(&mut m, &crate::text::chars_of(" is built by the identity that opened it"));
            return Err(crate::text::string_of(&m));
        }
        let ghost b0 = self@;
        let ghost signed = signed_drafts(b0, identity.secret());
        let mut pending: Vec<Draft> = Vec::new();
        std::mem::swap(&mut pending, &mut self.pending);
        assert(draft_views(self.pending@) =~= Seq::<DraftV>::empty());
        assert(self@ == (BuilderV { pending: Seq::empty(), next_seq: self.next_seq, ..b0 }));
        let mut ops = copy_hashes(&self.ops);
        let mut made: Vec<Op> = Vec::new();
        let mut i: usize = 0;
        assert(addresses(signed).take(0) =~= Seq::<Seq<u8>>::empty());
        while i < pending.len()
            invariant
                old(self)@ == b0,
                b0.pending == draft_views(pending@),
                b0.name == self.name@,
                b0.owner == self.owner@,
                self.owner@ == ed25519_public(identity.secret()),
                signed == signed_drafts(b0, identity.secret()),
                b0.next_seq + b0.pending.len() <= u64::MAX,
                i <= pending.len(),
                self.next_seq == b0.next_seq + i,
                self@ == (BuilderV { pending: Seq::empty(), next_seq: self.next_seq, ..b0 }),
                made@.len() == i,
                forall|j: int| 0 <= j < i ==> (#[trigger] made@[j])@ == signed[j],
                forall|j: int| 0 <= j < i ==> (#[trigger] op_address(signed[j])) is Some,
                hash_views(ops@) == append_new(b0.ops, addresses(signed).take(i as int)),
            decreases pending.len() - i,
        {
            let seq = self.next_seq;
            self.next_seq = self.next_seq + 1;
            assert(pending@[i as int]@ == b0.pending[i as int]);
            let made_op = match &pending[i] {
                Draft::Add(item) => Op::add(self.name.as_str(), seq, item.copy(), identity),
                Draft::Remove(ci) => Op::remove(self.name.as_str(), seq, *ci, identity),
            };
            let op = match made_op {
                Ok(op) => op,
                Err(e) => {
                    assert(!canon_ok(op_claim_data(draft_claim(b0.name, b0.owner, b0.next_seq + i, b0.pending[i as int]))));
                    return Err(e.to_string());
                },
            };
            assert(op@ == signed[i as int]);
            let hash = match op.address() {
                Ok(h) => h,
                Err(e) => {
                    assert(op_address(signed_drafts(b0, identity.secret())[i as int]) is None);
                    return Err(e.to_string());
                },
            };
            proof {
                assert(addresses(signed).take(i + 1).drop_last() =~= addresses(signed).take(i as int));
                assert(addresses(signed).take(i + 1).last() == hash@);
            }
            if !contains_hash(&ops, &hash) {
                let ghost mid = hash_views(ops@);
                ops.push(hash);
                assert(hash_views(ops@) =~= mid.push(hash@));
            }
            made.push(op);
            i = i + 1;
        }
        proof {
            assert(addresses(signed).take(i as int) =~= addresses(signed));
            assert(op_views(made@) =~= signed);
        }
        self.ops = copy_hashes(&ops);
        self.baseline = item_cis(&self.items);
        let mut head = Collection::new(self.kind.as_str(), self.name.as_str(), me).with(ops, copy_hashes(&self.records)).attesting(
            copy_hashes(&self.attestations),
        );
        head.forked_from = self.forked_from;
        Ok((made, head))
    }
}

/// Attesting a hash again moves it to the end: the attestations hold it
/// once, as the newest, and keep every other hash in order.
pub proof fn law_attest_keeps_only_the_newest(a: Seq<Seq<u8>>, h: Seq<u8>)
    ensures
        hashes_without(a, h).push(h).last() == h,
        forall|i: int| 0 <= i < hashes_without(a, h).len() ==> #[trigger] hashes_without(a, h)[i] != h,
        forall|x: Seq<u8>| x != h ==> (#[trigger] hashes_without(a, h).contains(x) <==> a.contains(x)),
    decreases a.len(),
{
    if a.len() > 0 {
        law_attest_keeps_only_the_newest(a.drop_last(), h);
        let r = hashes_without(a.drop_last(), h);
        assert forall|x: Seq<u8>| x != h implies (#[trigger] hashes_without(a, h).contains(x) <==> a.contains(x)) by {
            if a.contains(x) {
                let i = choose|i: int| 0 <= i < a.len() && a[i] == x;
                if i < a.len() - 1 {
                    assert(a.drop_last()[i] == x);
                    assert(r.contains(x));
                    let j = choose|j: int| 0 <= j < r.len() && r[j] == x;
                    if a.last() != h {
                        assert(r.push(a.last())[j] == x);
                    }
                } else if a.last() != h {
                    assert(r.push(a.last())[r.len() as int] == x);
                }
            }
            if hashes_without(a, h).contains(x) {
                let j = choose|j: int| 0 <= j < hashes_without(a, h).len() && hashes_without(a, h)[j] == x;
                if a.last() != h && j == r.len() {
                    assert(a[a.len() - 1] == x);
                } else {
                    assert(r[j] == x);
                    assert(r.contains(x));
                    let i = choose|i: int| 0 <= i < a.drop_last().len() && a.drop_last()[i] == x;
                    assert(a[i] == x);
                }
            }
        }
    }
}

/// An item removed from the builder is gone: no item has its identity.
pub proof fn law_removed_item_is_gone(items: Seq<ItemV>, ci: Seq<u8>)
    ensures
        forall|i: int| 0 <= i < without_ci(items, ci).len() ==> (#[trigger] without_ci(items, ci)[i]).ci != ci,
    decreases items.len(),
{
    if items.len() > 0 {
        law_removed_item_is_gone(items.drop_last(), ci);
    }
}

/// Whether no two items share an identity.
pub open spec fn unique_cis(items: Seq<ItemV>) -> bool {
    forall|i: int, j: int| 0 <= i < j < items.len() ==> (#[trigger] items[i]).ci != (#[trigger] items[j]).ci
}

/// Adding an item replaces the item with its identity: identities stay
/// unique, the item is held, and nothing else changes place.
pub proof fn law_add_replaces_by_identity(items: Seq<ItemV>, it: ItemV)
    requires
        unique_cis(items),
    ensures
        unique_cis(put_item(items, it)),
        put_item(items, it).contains(it),
        put_item(items, it).len() == items.len() || put_item(items, it).len() == items.len() + 1,
        forall|i: int| 0 <= i < items.len() && items[i].ci != it.ci ==> put_item(items, it)[i] == items[i],
{
    lemma_first_ci(items, it.ci);
    let r = put_item(items, it);
    match first_ci(items, it.ci) {
        Some(p) => {
            assert(r[p] == it);
        },
        None => {
            assert(r[items.len() as int] == it);
            assert forall|i: int, j: int| 0 <= i < j < r.len() implies (#[trigger] r[i]).ci != (#[trigger] r[j]).ci by {
                if j == items.len() {
                    assert(r[i] == items[i]);
                }
            }
        },
    }
}

} // verus!
