use spirit::address::CiHash;
use spirit::builder::Builder;
use spirit::collection::{fold, Collection, Item, Op, COLLECTION_RECORD};
use spirit::identity::Identity;
use spirit::store::{BlobHash, MemBlobs};
use std::collections::HashMap;

struct Store {
    blobs: MemBlobs,
    refs: HashMap<String, BlobHash>,
}

impl Store {
    fn new() -> Self {
        Store { blobs: MemBlobs::new(), refs: HashMap::new() }
    }

    fn load(&self, name: &str) -> Option<(Collection, Vec<Op>)> {
        let head = Collection::decode(&self.blobs.get(*self.refs.get(name)?).ok()?).ok()?;
        let ops = head
            .ops
            .iter()
            .filter_map(|hash| Op::decode(&self.blobs.get(*hash).ok()?).ok())
            .collect();
        Some((head, ops))
    }

    fn open(&self, name: &str, identity: &Identity) -> Builder {
        Builder::open(self.load(name), name, identity.dgid())
    }

    fn publish(&mut self, builder: &mut Builder, identity: &Identity) -> Result<BlobHash, String> {
        let (ops, head) = builder.prepare(identity)?;
        for op in &ops {
            self.blobs.put(&op.encode().unwrap()).unwrap();
        }
        let hash = self.blobs.put(&head.encode().unwrap()).unwrap();
        self.refs.insert(head.name.clone(), hash);
        Ok(hash)
    }
}

fn ci(seed: &[u8]) -> CiHash {
    CiHash::from_hash(BlobHash::of(seed))
}

fn owner() -> Identity {
    Identity::from_secret([2; 32])
}

#[test]
fn a_builder_carries_earlier_items_forward_and_replaces_by_identity() {
    let mut store = Store::new();
    let me = owner();
    let mut first = store.open("decks/mtg", &me);
    first.add(Item::labelled(ci(b"a"), "Ashe"));
    first.record(BlobHash::of(b"record a"));
    store.publish(&mut first, &me).unwrap();

    let mut second = store.open("decks/mtg", &me);
    assert_eq!(second.items().len(), 1);
    second.add(Item::labelled(ci(b"b"), "Jinx"));
    second.add(Item::labelled(ci(b"a"), "Ashe, rebuilt"));
    store.publish(&mut second, &me).unwrap();

    let third = store.open("decks/mtg", &me);
    assert_eq!(third.items().len(), 2);
    assert_eq!(third.items()[0].label.as_deref(), Some("Ashe, rebuilt"));
    assert_eq!(third.items()[1].label.as_deref(), Some("Jinx"));
    assert!(third.forked_from().is_none());
}

#[test]
fn a_builder_over_someone_elses_collection_forks_it() {
    let mut store = Store::new();
    let peer = Identity::from_secret([21; 32]);
    let me = owner();
    let mut theirs = store.open("decks/mtg", &peer);
    theirs.add(Item::labelled(ci(b"theirs"), "their deck"));
    store.publish(&mut theirs, &peer).unwrap();

    let mut mine = store.open("decks/mtg", &me);
    assert_eq!(mine.items().len(), 1);
    assert_eq!(mine.forked_from(), Some(peer.dgid()));
    mine.add(Item::labelled(ci(b"mine"), "my deck"));
    store.publish(&mut mine, &me).unwrap();

    let reopened = store.open("decks/mtg", &me);
    assert_eq!(reopened.items().len(), 2);
    assert!(reopened.forked_from().is_none());
}

#[test]
fn a_removed_item_stays_gone() {
    let mut store = Store::new();
    let me = owner();
    let mut builder = store.open("decks/mtg", &me);
    builder.add(Item::new(ci(b"a")));
    builder.add(Item::new(ci(b"b")));
    store.publish(&mut builder, &me).unwrap();

    let mut again = store.open("decks/mtg", &me);
    again.remove(ci(b"a"));
    store.publish(&mut again, &me).unwrap();

    let reopened = store.open("decks/mtg", &me);
    assert_eq!(reopened.items().len(), 1);
    assert_eq!(reopened.items()[0].ci, ci(b"b"));
}

#[test]
fn a_re_attested_identity_keeps_only_the_newest_claim() {
    let store = Store::new();
    let me = owner();
    let mut builder = store.open("decks/mtg", &me);
    let first = BlobHash::of(b"first claim");
    let second = BlobHash::of(b"second claim");
    builder.attest(first);
    builder.attest(second);
    builder.attest(first);
    assert_eq!(builder.attestations(), &vec![second, first]);
}

#[test]
fn publishing_appends_ops_instead_of_rewriting_them() {
    let mut store = Store::new();
    let me = owner();
    let mut first = store.open("decks/mtg", &me);
    first.kind("playlist");
    first.add(Item::new(ci(b"a")));
    first.add(Item::new(ci(b"b")));
    store.publish(&mut first, &me).unwrap();
    let (head, _) = store.load("decks/mtg").unwrap();
    assert_eq!(head.kind, "playlist");
    assert_eq!(head.record, COLLECTION_RECORD);
    assert_eq!(head.ops.len(), 2);

    let mut second = store.open("decks/mtg", &me);
    assert_eq!(second.pending(), 0);
    second.add(Item::new(ci(b"c")));
    second.remove(ci(b"a"));
    store.publish(&mut second, &me).unwrap();
    let (again, ops) = store.load("decks/mtg").unwrap();
    assert_eq!(again.kind, "playlist");
    assert_eq!(again.ops.len(), 4);
    assert!(head.ops.iter().all(|hash| again.ops.contains(hash)));
    assert_eq!(ops.iter().map(|op| op.claim.seq).max(), Some(4));
    let items = fold(me.dgid(), &ops);
    assert_eq!(items.iter().map(|item| item.ci).collect::<Vec<_>>(), vec![ci(b"b"), ci(b"c")]);

    let mut noop = store.open("decks/mtg", &me);
    noop.add(Item::new(ci(b"d")));
    noop.remove(ci(b"d"));
    store.publish(&mut noop, &me).unwrap();
    assert_eq!(store.load("decks/mtg").unwrap().0.ops.len(), 4);
}

#[test]
fn only_the_opening_identity_can_sign_a_builders_edits() {
    let store = Store::new();
    let me = owner();
    let other = Identity::from_secret([9; 32]);
    let mut builder = store.open("decks/mtg", &me);
    builder.add(Item::new(ci(b"a")));
    assert_eq!(
        builder.prepare(&other).unwrap_err(),
        "collection decks/mtg is built by the identity that opened it"
    );
    assert_eq!(builder.pending(), 1);
    assert_eq!(builder.next_seq(), 1);
}
