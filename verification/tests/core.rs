use spirit::address::{AttHash, BlobRef, CiHash, ColHash, TdHash};
use spirit::canonical::{from_slice, hash, to_vec, CanonError};
use spirit::cbor::Value;
use spirit::collection::{fold, Collection, Item, Op, COLLECTION_KIND};
use spirit::envelope::{of, LEGACY_KIND};
use spirit::identity::{verify, vouch, vouched, Dgid, Identity, Signature};
use spirit::record::{Attestation, Cir, Claim, ClaimKind, Tdr};
use spirit::store::{BlobHash, Blobs, MemBlobs, StoreError};
use spirit::trust::{Trust, TrustLevel};

fn text(s: &str) -> Value {
    Value::Text(s.to_string())
}

fn table(entries: Vec<(&str, Value)>) -> Value {
    Value::Table(entries.into_iter().map(|(k, v)| (text(k), v)).collect())
}

fn card(name: &str, set: &str, number: i128) -> Value {
    table(vec![
        ("name", text(name)),
        ("set", text(set)),
        ("number", Value::Integer(number)),
    ])
}

fn ci(seed: &[u8]) -> CiHash {
    CiHash::from_hash(BlobHash::of(seed))
}

#[test]
fn an_address_round_trips_through_its_prefixed_form() {
    let hash = BlobHash::of(b"Lightning Bolt");
    let ci = CiHash::from_hash(hash);
    let text = ci.to_string();
    assert!(text.starts_with("ci:"));
    assert_eq!(text.len(), 3 + 64);
    assert_eq!(CiHash::parse(&text), Some(ci));
    assert_eq!(ci.hash(), hash);
}

#[test]
fn prefixes_do_not_cross() {
    let text = TdHash::from_hash(BlobHash::of(b"scryfall fetch")).to_string();
    assert!(TdHash::parse(&text).is_some());
    assert_eq!(CiHash::parse(&text), None);
    assert_eq!(BlobRef::parse(&text), None);
}

#[test]
fn a_bare_hash_is_not_an_address() {
    let bare = BlobHash::of(b"bytes").to_hex();
    assert_eq!(BlobRef::parse(&bare), None);
    assert_eq!(AttHash::parse("att:zz"), None);
    assert_eq!(ColHash::parse(""), None);
}

#[test]
fn addresses_serialize_as_their_prefixed_text() {
    let col = ColHash::from_hash(BlobHash::of(b"modules/riftbound"));
    let bytes = to_vec(&Value::Text(col.to_string())).unwrap();
    let decoded = from_slice(&bytes).unwrap();
    let Value::Text(t) = decoded else {
        panic!("an address encodes as text");
    };
    assert_eq!(ColHash::parse(&t), Some(col));
    assert_eq!(t, col.to_string());
}

#[test]
fn field_order_does_not_change_the_bytes() {
    let straight = to_vec(&card("Lightning Bolt", "hob", 57)).unwrap();
    let shuffled = to_vec(&table(vec![
        ("number", Value::Integer(57)),
        ("set", text("hob")),
        ("name", text("Lightning Bolt")),
    ]))
    .unwrap();
    assert_eq!(straight, shuffled);
}

#[test]
fn map_keys_sort_bytewise_not_lexically() {
    let short_first = table(vec![("zz", Value::Integer(1)), ("a", Value::Integer(2))]);
    let bytes = to_vec(&short_first).unwrap();
    let decoded: ciborium::value::Value = ciborium::from_reader(bytes.as_slice()).unwrap();
    let ciborium::value::Value::Map(entries) = decoded else {
        panic!("a map encodes as a map");
    };
    assert_eq!(entries[0].0, ciborium::value::Value::Text("a".into()));
    assert_eq!(entries[1].0, ciborium::value::Value::Text("zz".into()));
}

#[test]
fn floats_are_refused() {
    assert_eq!(to_vec(&Value::Float(1.5f64.to_bits())), Err(CanonError::Float));
    assert_eq!(
        to_vec(&Value::Array(vec![Value::Float(1.5f32.to_bits() as u64)])),
        Err(CanonError::Float)
    );
}

#[test]
fn integers_take_their_shortest_form() {
    assert_eq!(to_vec(&Value::Integer(1)).unwrap(), vec![0x01]);
    assert_eq!(to_vec(&Value::Integer(1)).unwrap(), vec![0x01]);
    assert_eq!(to_vec(&Value::Integer(300)).unwrap(), vec![0x19, 0x01, 0x2c]);
}

#[test]
fn a_round_trip_returns_the_value() {
    let card = card("Emberwing Scout", "ogn", 7);
    let decoded = from_slice(&to_vec(&card).unwrap()).unwrap();
    let canonical = table(vec![
        ("set", text("ogn")),
        ("name", text("Emberwing Scout")),
        ("number", Value::Integer(7)),
    ]);
    assert_eq!(decoded, canonical);
}

#[test]
fn the_same_value_always_hashes_the_same() {
    let card = card("Ember Rune", "ogn", 42);
    assert_eq!(hash(&card).unwrap(), hash(&card).unwrap());
    assert_eq!(hash(&card).unwrap(), BlobHash::of(&to_vec(&card).unwrap()));
}

#[test]
fn our_codec_agrees_with_ciborium_on_what_it_writes() {
    let value = table(vec![
        ("name", text("Emberwing Scout")),
        ("tags", Value::Array(vec![text("a"), Value::Integer(-3), Value::Bool(true), Value::Null])),
        ("bytes", Value::Bytes(vec![0, 1, 2, 255])),
        ("big", Value::Integer(1 << 40)),
    ]);
    let bytes = to_vec(&value).unwrap();
    let theirs: ciborium::value::Value = ciborium::from_reader(bytes.as_slice()).unwrap();
    let mut again = Vec::new();
    ciborium::into_writer(&theirs, &mut again).unwrap();
    assert_eq!(again, bytes);
}

fn owner() -> Identity {
    Identity::from_secret([2; 32])
}

#[test]
fn adds_fold_in_sequence_order_however_they_arrive() {
    let me = owner();
    let first = Op::add("modules/riftbound", 1, Item::labelled(ci(b"v1"), "0.1.0"), &me).unwrap();
    let second = Op::add("modules/riftbound", 2, Item::labelled(ci(b"v2"), "0.2.0"), &me).unwrap();
    let forward = fold(me.dgid(), &[first.clone(), second.clone()]);
    let backward = fold(me.dgid(), &[second, first]);
    assert_eq!(forward, backward);
    assert_eq!(forward.len(), 2);
    assert_eq!(forward[0].label.as_deref(), Some("0.1.0"));
    assert_eq!(forward[1].label.as_deref(), Some("0.2.0"));
}

#[test]
fn a_repeated_add_replaces_rather_than_duplicates() {
    let me = owner();
    let ops = vec![
        Op::add("modules/mtg", 1, Item::labelled(ci(b"v1"), "0.1.0"), &me).unwrap(),
        Op::add("modules/mtg", 2, Item::labelled(ci(b"v1"), "0.1.0-relabelled"), &me).unwrap(),
    ];
    let items = fold(me.dgid(), &ops);
    assert_eq!(items.len(), 1);
    assert_eq!(items[0].label.as_deref(), Some("0.1.0-relabelled"));
}

#[test]
fn a_remove_drops_the_item_and_a_reorder_moves_it() {
    let me = owner();
    let ops = vec![
        Op::add("cards/mtg", 1, Item::new(ci(b"a")), &me).unwrap(),
        Op::add("cards/mtg", 2, Item::new(ci(b"b")), &me).unwrap(),
        Op::add("cards/mtg", 3, Item::new(ci(b"c")), &me).unwrap(),
        Op::remove("cards/mtg", 4, ci(b"b"), &me).unwrap(),
        Op::reorder("cards/mtg", 5, vec![ci(b"c"), ci(b"a")], &me).unwrap(),
    ];
    let items = fold(me.dgid(), &ops);
    assert_eq!(items.len(), 2);
    assert_eq!(items[0].ci, ci(b"c"));
    assert_eq!(items[1].ci, ci(b"a"));
}

#[test]
fn an_op_from_another_key_never_folds() {
    let me = owner();
    let stranger = Identity::from_secret([9; 32]);
    let mine = Op::add("modules/riftbound", 1, Item::new(ci(b"mine")), &me).unwrap();
    let theirs = Op::add("modules/riftbound", 2, Item::new(ci(b"theirs")), &stranger).unwrap();
    let items = fold(me.dgid(), &[mine.clone(), theirs.clone()]);
    assert_eq!(items.len(), 1);
    assert_eq!(items[0].ci, ci(b"mine"));

    let mut forged = theirs;
    forged.claim.owner = me.dgid();
    assert!(!forged.owned());
    assert_eq!(fold(me.dgid(), &[mine, forged]).len(), 1);
}

#[test]
fn an_op_round_trips_and_keeps_its_signature() {
    let me = owner();
    let op = Op::add("modules/mtg", 7, Item::labelled(ci(b"x"), "1.0.0"), &me).unwrap();
    let decoded = Op::decode(&op.encode().unwrap()).unwrap();
    assert_eq!(decoded.signer(), Some(me.dgid()));
    assert_eq!(decoded.address().unwrap(), op.address().unwrap());
}

#[test]
fn a_head_lists_every_hash_it_needs_replicated() {
    let me = owner();
    let op = Op::add("modules/mtg", 1, Item::new(ci(b"x")), &me).unwrap();
    let op_hash = op.address().unwrap();
    let record = BlobHash::of(b"the cir");
    let attestation = BlobHash::of(b"the attestation");
    let head = Collection::new("modules", "modules/mtg", me.dgid())
        .with(vec![op_hash], vec![record])
        .attesting(vec![attestation]);
    assert_eq!(head.refs.len(), 3);
    assert!(head.refs.contains(&op_hash));
    assert!(head.refs.contains(&record));
    assert!(head.refs.contains(&attestation));
    let decoded = Collection::decode(&head.encode().unwrap()).unwrap();
    assert_eq!(decoded, head);
    assert!(decoded.address().unwrap().to_string().starts_with("col:"));
}

#[test]
fn a_legacy_head_without_a_record_field_still_decodes_byte_for_byte() {
    let me = owner();
    let legacy = Collection {
        record: String::new(),
        kind: COLLECTION_KIND.into(),
        name: "modules/mtg".into(),
        owner: me.dgid(),
        forked_from: None,
        ops: Vec::new(),
        attestations: Vec::new(),
        records: Vec::new(),
        refs: Vec::new(),
    };
    let bytes = legacy.encode().unwrap();
    let key = [b"\x66".as_slice(), b"record"].concat();
    assert!(!bytes.windows(key.len()).any(|w| w == key));
    let decoded = Collection::decode(&bytes).unwrap();
    assert!(decoded.is_legacy());
    assert_eq!(decoded.encode().unwrap(), bytes);
    let mut wrong = legacy.clone();
    wrong.kind = "playlist".into();
    assert!(Collection::decode(&wrong.encode().unwrap()).is_err());
}

fn declaring(kind: &str, name: &str, refs: &[BlobHash]) -> Value {
    table(vec![
        ("kind", text(kind)),
        ("name", text(name)),
        ("refs", Value::Array(refs.iter().map(|h| text(&h.to_hex())).collect())),
    ])
}

fn legacy_manifest(set: &str, cards: &[(&str, BlobHash)]) -> Value {
    table(vec![
        ("set", text(set)),
        (
            "cards",
            Value::Array(
                cards
                    .iter()
                    .map(|(name, image)| table(vec![("name", text(name)), ("image", text(&image.to_hex()))]))
                    .collect(),
            ),
        ),
    ])
}

#[test]
fn a_declared_envelope_is_taken_at_its_word() {
    let refs = vec![BlobHash::of(b"one"), BlobHash::of(b"two")];
    let bytes = to_vec(&declaring("collection", "modules/mtg", &refs)).unwrap();
    let envelope = of(&bytes).unwrap();
    assert_eq!(envelope.kind, "collection");
    assert_eq!(envelope.refs, refs);
}

#[test]
fn a_legacy_card_manifest_still_yields_its_blobs() {
    let art = BlobHash::of(b"jpeg");
    let other = BlobHash::of(b"another jpeg");
    let bytes = to_vec(&legacy_manifest("hob", &[("Lightning Bolt", art), ("Shock", other)])).unwrap();
    let envelope = of(&bytes).unwrap();
    assert_eq!(envelope.kind, LEGACY_KIND);
    assert_eq!(envelope.refs.len(), 2);
    assert!(envelope.refs.contains(&art));
    assert!(envelope.refs.contains(&other));
}

#[test]
fn a_repeated_hash_counts_once() {
    let art = BlobHash::of(b"shared art");
    let bytes = to_vec(&legacy_manifest("hob", &[("Front", art), ("Back", art)])).unwrap();
    assert_eq!(of(&bytes).unwrap().refs, vec![art]);
}

#[test]
fn a_record_with_no_hashes_has_an_empty_envelope() {
    let bytes = to_vec(&legacy_manifest("empty", &[])).unwrap();
    assert!(of(&bytes).unwrap().refs.is_empty());
    assert!(of(&[0xff, 0xff]).is_none());
    assert!(of(&[]).is_none());
}

fn identity(seed: u8) -> Identity {
    Identity::from_secret([seed; 32])
}

#[test]
fn a_signature_verifies_against_its_dgid_and_nothing_else() {
    let mine = identity(7);
    let theirs = identity(9);
    let claim = b"the module is the bytes";
    let signature = mine.sign(claim);
    assert!(verify(mine.dgid(), claim, signature));
    assert!(!verify(theirs.dgid(), claim, signature));
    assert!(!verify(mine.dgid(), b"different claim", signature));
}

#[test]
fn a_dgid_round_trips_through_its_text_form() {
    let dgid = identity(3).dgid();
    let text = dgid.to_string();
    assert!(text.starts_with("dgid:"));
    assert_eq!(Dgid::parse(&text), Some(dgid));
    assert_eq!(Dgid::parse(&text[5..]), Some(dgid));
    assert_eq!(Dgid::parse("dgid:zz"), None);
    assert_eq!(dgid.short().len(), 8);
}

#[test]
fn a_signature_round_trips_through_canonical_cbor() {
    let signature = identity(5).sign(b"claim");
    let bytes = to_vec(&Value::Text(signature.to_string())).unwrap();
    let Value::Text(t) = from_slice(&bytes).unwrap() else {
        panic!("a signature encodes as text");
    };
    assert_eq!(Signature::parse(&t), Some(signature));
}

#[test]
fn a_vouch_binds_one_node_id_to_one_group() {
    let group = identity(4);
    let other = identity(5);
    let node = [7u8; 32];
    let signature = vouch(&group, &node);
    assert!(vouched(group.dgid(), &node, signature));
    assert!(!vouched(other.dgid(), &node, signature));
    assert!(!vouched(group.dgid(), &[8u8; 32], signature));
}

fn card_body(name: &str) -> Value {
    table(vec![("game", text("mtg")), ("name", text(name))])
}

fn bolt() -> Cir {
    Cir::new("card", &card_body("Lightning Bolt")).unwrap()
}

#[test]
fn a_cir_round_trips_and_keeps_its_address() {
    let cir = bolt();
    let bytes = cir.encode().unwrap();
    let decoded = Cir::decode(&bytes).unwrap();
    assert_eq!(decoded, cir);
    assert_eq!(decoded.address().unwrap(), cir.address().unwrap());
    let body = decoded.body().unwrap();
    let Value::Table(entries) = body else {
        panic!("a card body is a map");
    };
    assert!(entries.contains(&(text("name"), text("Lightning Bolt"))));
    assert!(cir.address().unwrap().to_string().starts_with("ci:"));
}

#[test]
fn two_nodes_minting_the_same_card_mint_the_same_identity() {
    assert_eq!(bolt().address().unwrap(), bolt().address().unwrap());
    let other = Cir::new("card", &card_body("Shock")).unwrap();
    assert_ne!(bolt().address().unwrap(), other.address().unwrap());
}

#[test]
fn a_record_refuses_to_decode_as_the_wrong_type() {
    let bytes = bolt().encode().unwrap();
    assert!(Tdr::decode(&bytes).is_err());
    assert!(Attestation::decode(&bytes).is_err());
}

#[test]
fn a_signed_attestation_names_its_signer_and_a_tampered_one_does_not() {
    let identity = Identity::from_secret([4; 32]);
    let claim = Claim::content(
        bolt().address().unwrap(),
        TdHash::from_hash(BlobHash::of(b"scryfall image fetch")),
        BlobRef::from_hash(BlobHash::of(b"jpeg bytes")),
    );
    let attestation = Attestation::sign(claim.clone(), &identity).unwrap();
    assert_eq!(attestation.signer(), Some(identity.dgid()));

    let mut forged = attestation.clone();
    forged.claim.blob = Some(BlobRef::from_hash(BlobHash::of(b"other bytes")));
    assert_eq!(forged.signer(), None);

    assert_eq!(Attestation::unsigned(claim).signer(), None);
}

#[test]
fn a_signature_survives_the_record_round_trip() {
    let identity = Identity::from_secret([8; 32]);
    let claim = Claim::relation(
        ClaimKind::SameAs,
        bolt().address().unwrap(),
        CiHash::from_hash(BlobHash::of(b"another mint")),
    );
    let attestation = Attestation::sign(claim, &identity).unwrap();
    let decoded = Attestation::decode(&attestation.encode().unwrap()).unwrap();
    assert_eq!(decoded.signer(), Some(identity.dgid()));
    assert_eq!(decoded.address().unwrap(), attestation.address().unwrap());
}

#[test]
fn wrapping_a_claim_in_a_proof_does_not_move_the_signing_scope() {
    let claim = Claim::content(
        bolt().address().unwrap(),
        TdHash::from_hash(BlobHash::of(b"td")),
        BlobRef::from_hash(BlobHash::of(b"blob")),
    );
    let unsigned = Attestation::unsigned(claim.clone());
    let signed = Attestation::sign(claim.clone(), &Identity::from_secret([1; 32])).unwrap();
    assert_eq!(unsigned.claim.scope().unwrap(), signed.claim.scope().unwrap());
    assert_eq!(unsigned.claim.scope().unwrap(), claim.scope().unwrap());
}

#[test]
fn missing_blob_is_an_error() {
    let store = MemBlobs::new();
    let hash = BlobHash::of(b"never stored");
    assert!(!store.has(hash));
    assert!(matches!(store.get(hash), Err(StoreError::Missing(_))));
}

#[test]
fn hash_displays_and_parses_as_hex() {
    let hash = BlobHash::of(b"smaug");
    let hex = hash.to_hex();
    assert_eq!(hex.len(), 64);
    assert_eq!(BlobHash::parse(&hex), Some(hash));
    assert_eq!(BlobHash::parse("zz"), None);
    assert_eq!(BlobHash::parse(&hex[..10]), None);
}

#[test]
fn a_hash_is_hex_digits_only() {
    assert_eq!(BlobHash::parse(&"+0".repeat(32)), None);
    assert_eq!(BlobHash::parse(&"0+".repeat(32)), None);
    let upper = BlobHash::of(b"smaug").to_hex().to_uppercase();
    assert_eq!(BlobHash::parse(&upper), Some(BlobHash::of(b"smaug")));
}

#[test]
fn a_memory_store_gives_back_what_was_put_under_its_hash() {
    let mut store = MemBlobs::new();
    let hash = store.put(b"leaves").unwrap();
    assert_eq!(store.put(b"leaves").unwrap(), hash);
    assert_eq!(hash, BlobHash::of(b"leaves"));
    assert!(store.has(hash));
    assert_eq!(store.get(hash).unwrap(), b"leaves");
    assert_eq!(store.len(), 1);
    assert!(!store.is_empty());
}

fn dgid(seed: u8) -> Dgid {
    Identity::from_secret([seed; 32]).dgid()
}

#[test]
fn levels_order_from_unknown_up_to_mesh() {
    assert!(TrustLevel::Mesh > TrustLevel::Cache);
    assert!(TrustLevel::Cache > TrustLevel::Contact);
    assert!(TrustLevel::Contact > TrustLevel::Unknown);
}

#[test]
fn an_unlisted_key_is_unknown_and_my_own_key_is_mesh() {
    let mine = dgid(1);
    let stranger = dgid(2);
    let trust = Trust::new().with_own(mine);
    assert_eq!(trust.level(mine), TrustLevel::Mesh);
    assert_eq!(trust.level(stranger), TrustLevel::Unknown);
    assert!(trust.trusts(mine, TrustLevel::Cache));
    assert!(!trust.trusts(stranger, TrustLevel::Contact));
}

#[test]
fn setting_unknown_forgets_a_key() {
    let mut trust = Trust::new();
    trust.set(dgid(6), TrustLevel::Mesh);
    trust.set(dgid(6), TrustLevel::Unknown);
    assert_eq!(trust.level(dgid(6)), TrustLevel::Unknown);
    assert_eq!(trust.entries().len(), 0);
}

#[test]
fn levels_survive_writing_and_reading_the_trust_text() {
    let mut trust = Trust::new();
    trust.set(dgid(3), TrustLevel::Cache);
    trust.set(dgid(4), TrustLevel::Contact);
    let text = trust.to_text();
    let loaded = Trust::from_text(&text).with_own(dgid(5));
    assert_eq!(loaded.level(dgid(3)), TrustLevel::Cache);
    assert_eq!(loaded.level(dgid(4)), TrustLevel::Contact);
    assert_eq!(loaded.level(dgid(5)), TrustLevel::Mesh);
    assert_eq!(loaded.entries().len(), 2);
}

#[test]
fn a_trust_file_skips_comments_and_junk_and_keeps_the_last_line() {
    let a = dgid(3);
    let name = a.to_string();
    let text = format!("# mine\n\n{name} mesh\nnot a line\n{name}   cache\n");
    let loaded = Trust::from_text(&text);
    assert_eq!(loaded.level(a), TrustLevel::Cache);
    assert_eq!(loaded.entries().len(), 1);
    assert_eq!(Trust::from_text("").entries().len(), 0);
    assert_eq!(Trust::path("/s"), "/s/trust");
}

#[test]
fn a_signature_reads_back_from_its_text_with_space_around_it() {
    let signature = identity(6).sign(b"claim");
    let text = signature.to_string();
    assert_eq!(Signature::parse(&text), Some(signature));
    assert_eq!(Signature::parse(&format!(" {}\n", text)), Some(signature));
    assert_eq!(Signature::parse(&text[..127]), None);
}

#[test]
fn a_level_reads_back_from_its_label() {
    for level in [TrustLevel::Unknown, TrustLevel::Contact, TrustLevel::Cache, TrustLevel::Mesh] {
        assert_eq!(TrustLevel::parse(&level.label()), Some(level));
        assert_eq!(TrustLevel::parse(&format!(" {}\n", level.label())), Some(level));
    }
    assert_eq!(TrustLevel::parse("friend"), None);
    assert_eq!(TrustLevel::parse("Mesh"), None);
}

#[test]
fn folding_ignores_order_and_ops_the_owner_did_not_sign() {
    let me = owner();
    let stranger = identity(9);
    let a = Op::add("modules/riftbound", 1, Item::labelled(ci(b"v1"), "0.1.0"), &me).unwrap();
    let b = Op::add("modules/riftbound", 2, Item::labelled(ci(b"v2"), "0.2.0"), &me).unwrap();
    let c = Op::add("modules/riftbound", 3, Item::labelled(ci(b"v3"), "0.3.0"), &stranger).unwrap();
    let all = fold(me.dgid(), &[a.clone(), b.clone(), c.clone()]);
    assert_eq!(fold(me.dgid(), &[c.clone(), b.clone(), a.clone()]), all);
    assert_eq!(fold(me.dgid(), &[b.clone(), a.clone()]), all);
    let labels: Vec<_> = fold(me.dgid(), &[b, c, a]).iter().map(|i| i.label.clone()).collect();
    assert_eq!(labels, vec![Some("0.1.0".to_string()), Some("0.2.0".to_string())]);
}

#[test]
fn a_store_is_used_through_its_trait() {
    fn keep<B: Blobs>(store: &mut B, bytes: &[u8]) -> Vec<u8> {
        let hash = store.put(bytes).unwrap();
        assert!(store.has(hash));
        store.get(hash).unwrap()
    }
    let mut store = MemBlobs::new();
    assert_eq!(keep(&mut store, b"leaves"), b"leaves".to_vec());
    assert!(!Blobs::has(&store, BlobHash::of(b"roots")));
}
