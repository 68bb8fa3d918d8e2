use spirit::address::{BlobRef, CiHash, TdHash};
use spirit::canonical::to_vec;
use spirit::cbor::Value;
use spirit::collection::{merge, publish, Collection, Merged};
use spirit::identity::Identity;
use spirit::index::Index;
use spirit::record::{Attestation, Cir, Claim, Tdr};
use spirit::render::index_lines;
use spirit::store::{BlobHash, MemBlobs};
use spirit::trust::{Trust, TrustLevel};

fn text(s: &str) -> Value {
    Value::Text(s.to_string())
}

fn table(entries: Vec<(&str, Value)>) -> Value {
    Value::Table(entries.into_iter().map(|(k, v)| (text(k), v)).collect())
}

fn card_body(external: Vec<(&str, Value)>, name: &str) -> Value {
    table(vec![
        ("external", table(external)),
        ("game", text("mtg")),
        ("name", text(name)),
    ])
}

fn put_cir(store: &mut MemBlobs, cir: &Cir) -> CiHash {
    CiHash::from_hash(store.put(&cir.encode().unwrap()).unwrap())
}

/// A card, a printing of it, art for the printing attested by `identity`,
/// and a collection `cards/mtg` that carries all three.
fn seed(store: &mut MemBlobs, identity: &Identity) -> (CiHash, CiHash, BlobHash, Vec<(String, BlobHash)>) {
    let card = put_cir(
        store,
        &Cir::new(
            "card",
            &card_body(vec![("scryfall_oracle_id", text("4457ed35"))], "Lightning Bolt"),
        )
        .unwrap(),
    );
    let printing = put_cir(
        store,
        &Cir::new(
            "card-printing",
            &table(vec![("card", text(&card.to_string())), ("set", text("hob"))]),
        )
        .unwrap(),
    );
    let art = store.put(b"jpeg").unwrap();
    let td = TdHash::from_hash(
        store
            .put(
                &Tdr::new("image-fetch", &Value::Array(vec![text("2026-09-04")]))
                    .unwrap()
                    .encode()
                    .unwrap(),
            )
            .unwrap(),
    );
    let attestation = Attestation::sign(
        Claim::content(printing, td, BlobRef::from_hash(art)),
        identity,
    )
    .unwrap();
    let attestation_hash = store.put(&attestation.encode().unwrap()).unwrap();
    let head = Collection::new("catalog", "cards/mtg", identity.dgid()).with(
        Vec::new(),
        vec![card.hash(), printing.hash(), attestation_hash],
    );
    let mut refs = Vec::new();
    let head_hash = publish(store, &mut refs, &head).unwrap();
    assert_eq!(store.get(head_hash).unwrap(), head.encode().unwrap());
    assert_eq!(refs, vec![("cards/mtg".to_string(), head_hash)]);
    (card, printing, art, refs)
}

#[test]
fn the_fold_finds_kinds_links_and_external_ids() {
    let mut store = MemBlobs::new();
    let me = Identity::from_secret([1; 32]);
    let (card, printing, _, refs) = seed(&mut store, &me);
    let index = Index::build(&store, &refs);

    assert_eq!(index.kind_of(card), Some("card"));
    assert_eq!(index.kind_of(printing), Some("card-printing"));
    assert_eq!(index.linked_to(card), &[printing]);
    assert_eq!(
        index.by_external("scryfall_oracle_id", "4457ed35"),
        Some(card)
    );
    assert_eq!(index.owner_of("cards/mtg"), Some(me.dgid()));
}

#[test]
fn resolution_needs_a_trusted_signature() {
    let mut store = MemBlobs::new();
    let me = Identity::from_secret([2; 32]);
    let (_, printing, art, refs) = seed(&mut store, &me);
    let index = Index::build(&store, &refs);

    let trust = Trust::new().with_own(me.dgid());
    assert_eq!(
        index.resolve(printing, &trust, TrustLevel::Cache),
        Some(art)
    );

    let stranger = Trust::new().with_own(Identity::from_secret([3; 32]).dgid());
    assert_eq!(index.resolve(printing, &stranger, TrustLevel::Cache), None);
}

#[test]
fn a_legacy_ref_is_absorbed_without_a_collection() {
    let mut store = MemBlobs::new();
    let cir = Cir::new("card", &card_body(Vec::new(), "Shock")).unwrap();
    let ci = put_cir(&mut store, &cir);
    let manifest = to_vec(&Value::Array(vec![text(&ci.hash().to_hex())])).unwrap();
    let manifest_hash = store.put(&manifest).unwrap();

    let index = Index::build(&store, &vec![("legacy".to_string(), manifest_hash)]);
    assert_eq!(index.kind_of(ci), Some("card"));
    assert!(index.owner_of("legacy").is_none());
}

#[test]
fn an_empty_store_indexes_to_nothing() {
    let store = MemBlobs::new();
    let index = Index::build(&store, &Vec::new());
    assert_eq!(index.collections().len(), 0);
    assert!(index
        .attestations_for(CiHash::from_hash(BlobHash::of(b"x")))
        .is_empty());
}

#[test]
fn an_attestation_folds_in_once() {
    let mut store = MemBlobs::new();
    let me = Identity::from_secret([5; 32]);
    let (_, printing, _, refs) = seed(&mut store, &me);
    let mut index = Index::build(&store, &refs);
    assert_eq!(index.attestations_for(printing).len(), 1);
    let head = refs[0].1;
    index.absorb_ref(&store, head);
    assert_eq!(index.attestations_for(printing).len(), 1);
    assert_eq!(index.linked_to(printing).len(), 0);
}

#[test]
fn a_missing_blob_adds_nothing() {
    let store = MemBlobs::new();
    let mut index = Index::new();
    index.absorb_stored(&store, BlobHash::of(b"absent"));
    assert_eq!(index.cis().len(), 0);
    index.absorb_blob(BlobHash::of(b"junk"), b"junk");
    assert_eq!(index.cis().len(), 0);
    assert_eq!(index.externals().len(), 0);
}

#[test]
fn every_link_to_an_identity_is_kept_in_order() {
    let mut index = Index::new();
    let target = CiHash::from_hash(BlobHash::of(b"card"));
    let first = Cir::new("card-printing", &table(vec![("card", text(&target.to_string()))])).unwrap();
    let second = Cir::new("card-face", &table(vec![("of", text(&target.to_string()))])).unwrap();
    let a = BlobHash::of(b"first");
    let b = BlobHash::of(b"second");
    index.absorb_blob(a, &first.encode().unwrap());
    index.absorb_blob(b, &second.encode().unwrap());
    assert_eq!(
        index.linked_to(target),
        &[CiHash::from_hash(a), CiHash::from_hash(b)]
    );
    assert_eq!(index.kind_of(CiHash::from_hash(b)), Some("card-face"));
}

#[test]
fn the_fold_is_shown_by_name_address_and_id() {
    let mut store = MemBlobs::new();
    let me = Identity::from_secret([7; 32]);
    let (card, printing, art, refs) = seed(&mut store, &me);
    let index = Index::build(&store, &refs);
    let trust = Trust::new().with_own(me.dgid());
    let view = index.view_under(&trust);
    assert_eq!(view.collections.len(), 1);
    assert_eq!(view.collections[0].name, "cards/mtg");
    assert_eq!(view.collections[0].owner, me.dgid().to_string());
    assert_eq!(view.identities.len(), 2);
    assert!(view.identities[0].ci < view.identities[1].ci);
    let shown = view.identities.iter().find(|e| e.ci == printing.to_string()).unwrap();
    assert_eq!(shown.kind, "card-printing");
    assert_eq!(shown.attestations.len(), 1);
    assert_eq!(shown.attestations[0].blob, Some(BlobRef::from_hash(art).to_string()));
    assert_eq!(shown.attestations[0].level, "mesh");
    assert_eq!(shown.attestations[0].signer, Some(me.dgid().to_string()));
    let card_entry = view.identities.iter().find(|e| e.ci == card.to_string()).unwrap();
    assert_eq!(card_entry.linked_from, vec![printing.to_string()]);
    assert_eq!(view.externals.len(), 1);
    assert_eq!(view.externals[0].key, "scryfall_oracle_id");
    assert_eq!(view.externals[0].ci, card.to_string());
    let text = index_lines(&view);
    assert!(text.starts_with("collections:\n  cards/mtg"));
    assert!(text.contains("external ids:\n  scryfall_oracle_id=4457ed35"));
}

#[test]
fn a_head_under_an_unusable_name_is_stored_but_not_published() {
    let mut store = MemBlobs::new();
    let me = Identity::from_secret([8; 32]);
    let head = Collection::new("catalog", "../escape", me.dgid());
    let mut refs = Vec::new();
    let refused = publish(&mut store, &mut refs, &head).unwrap_err();
    assert_eq!(refused, "\"../escape\" is not a usable ref name");
    assert!(refs.is_empty());
    assert!(store.has(BlobHash::of(&head.encode().unwrap())));
    let renamed = Collection::new("catalog", "cards/mtg", me.dgid());
    let first = publish(&mut store, &mut refs, &renamed).unwrap();
    let again = publish(&mut store, &mut refs, &renamed.with(Vec::new(), vec![first])).unwrap();
    assert_eq!(refs, vec![("cards/mtg".to_string(), again)]);
}

#[test]
fn merging_adopts_a_head_with_everything_and_unites_concurrent_heads() {
    let mut store = MemBlobs::new();
    let me = Identity::from_secret([3; 32]);
    let a = store.put(b"a").unwrap();
    let b = store.put(b"b").unwrap();
    let c = store.put(b"c").unwrap();
    let head = |records: Vec<BlobHash>| Collection::new("catalog", "cards/mtg", me.dgid()).with(Vec::new(), records);
    let mut refs = Vec::new();
    let first = publish(&mut store, &mut refs, &head(vec![a])).unwrap();
    let more = store.put(&head(vec![a, b]).encode().unwrap()).unwrap();
    assert_eq!(merge(&mut store, &mut refs, "cards/mtg", more).unwrap(), Merged::Adopted(more));
    assert_eq!(merge(&mut store, &mut refs, "cards/mtg", first).unwrap(), Merged::Unchanged);
    let other = store.put(&head(vec![a, c]).encode().unwrap()).unwrap();
    let united = match merge(&mut store, &mut refs, "cards/mtg", other).unwrap() {
        Merged::Union(h) => h,
        m => panic!("not a union: {m:?}"),
    };
    assert_eq!(refs, vec![("cards/mtg".to_string(), united)]);
    let merged = Collection::decode(&store.get(united).unwrap()).unwrap();
    for blob in [a, b, c] {
        assert!(merged.records.contains(&blob));
    }
    assert!(merge(&mut store, &mut refs, "cards/mtg", BlobHash::of(b"absent")).is_err());
}
