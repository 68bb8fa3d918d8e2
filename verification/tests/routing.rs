use spirit::address::{BlobRef, CiHash, TdHash};
use spirit::cbor::Value;
use spirit::identity::Identity;
use spirit::record::{Attestation, Claim, ClaimKind, Tdr};
use spirit::routing::{artifacts, rank_providers, resolve, Found, Policy};
use spirit::store::BlobHash;
use spirit::trust::{Trust, TrustLevel};

fn tdr(variant: &str, snapshot: Option<&str>) -> Tdr {
    let mut entries = vec![(Value::Text("variant".into()), Value::Text(variant.into()))];
    if let Some(snapshot) = snapshot {
        entries.push((Value::Text("snapshot".into()), Value::Text(snapshot.into())));
    }
    Tdr::new("fetch", &Value::Table(entries)).unwrap()
}

fn found(identity: &Identity, ci: CiHash, blob: BlobHash, tdr: Tdr, held: bool, expired: bool) -> Found {
    let td = tdr.address().unwrap();
    let claim = Claim::content(ci, td, BlobRef::from_hash(blob));
    Found { attestation: Attestation::sign(claim, identity).unwrap(), tdr: Some(tdr), held, expired }
}

#[test]
fn providers_rank_by_trust_and_drop_the_untrusted() {
    let mine = Identity::from_secret([5; 32]).dgid();
    let cache = Identity::from_secret([6; 32]).dgid();
    let contact = Identity::from_secret([7; 32]).dgid();
    let stranger = Identity::from_secret([8; 32]).dgid();
    let mut trust = Trust::new().with_own(mine);
    trust.set(cache, TrustLevel::Cache);
    trust.set(contact, TrustLevel::Contact);

    let policy = Policy { minimum: TrustLevel::Contact, prefer_held: false, prefer_td: None };
    let ranked = rank_providers(
        &trust,
        policy,
        vec![(contact, "contact"), (stranger, "stranger"), (mine, "mine"), (cache, "cache")],
    );
    assert_eq!(ranked, vec!["mine", "cache", "contact"]);
}

#[test]
fn the_higher_trusted_attestation_wins() {
    let me = Identity::from_secret([1; 32]);
    let friend = Identity::from_secret([2; 32]);
    let ci = CiHash::from_hash(BlobHash::of(b"Lightning Bolt"));
    let mine = BlobHash::of(b"my scan");
    let theirs = BlobHash::of(b"their scan");
    let list = vec![
        found(&me, ci, mine, tdr("fetch", None), true, false),
        found(&friend, ci, theirs, tdr("fetch", None), true, false),
    ];
    let mut trust = Trust::new().with_own(me.dgid());
    trust.set(friend.dgid(), TrustLevel::Cache);
    let resolved = resolve(&trust, Policy::default(), &list).unwrap();
    assert_eq!(resolved.signer, me.dgid());
    assert_eq!(resolved.blob, mine);
    assert!(resolved.held);
}

#[test]
fn an_untrusted_claim_resolves_to_nothing() {
    let stranger = Identity::from_secret([3; 32]);
    let ci = CiHash::from_hash(BlobHash::of(b"Shock"));
    let list = vec![found(&stranger, ci, BlobHash::of(b"bytes"), tdr("fetch", None), true, false)];
    let trust = Trust::new().with_own(Identity::from_secret([4; 32]).dgid());
    assert!(resolve(&trust, Policy::default(), &list).is_none());
    let open = Policy { minimum: TrustLevel::Unknown, ..Policy::default() };
    assert!(resolve(&trust, open, &list).is_some());
}

#[test]
fn the_preferred_transform_then_the_newest_snapshot_wins_and_expired_claims_lose() {
    let me = Identity::from_secret([1; 32]);
    let ci = CiHash::from_hash(BlobHash::of(b"Leaves from the Vine"));
    let flac = BlobHash::of(b"flac");
    let mp3 = BlobHash::of(b"mp3");
    let remaster = BlobHash::of(b"remaster");
    let stale = BlobHash::of(b"stale");
    let flac_tdr = tdr("flac", Some("2026-01-01T00:00:00Z"));
    let td_flac: TdHash = flac_tdr.address().unwrap();
    let list = vec![
        found(&me, ci, flac, flac_tdr, true, false),
        found(&me, ci, mp3, tdr("mp3", Some("2026-02-01T00:00:00Z")), true, false),
        found(&me, ci, remaster, tdr("flac", Some("2026-03-01T00:00:00Z")), true, false),
        found(&me, ci, stale, tdr("flac", Some("2027-01-01T00:00:00Z")), true, true),
    ];
    let trust = Trust::new().with_own(me.dgid());

    let newest = resolve(&trust, Policy::default(), &list).unwrap();
    assert_eq!(newest.blob, remaster);

    let preferred = Policy { prefer_td: Some(td_flac), ..Policy::default() };
    assert_eq!(resolve(&trust, preferred, &list).unwrap().blob, flac);

    let listed = artifacts(&trust, Policy::default(), &list);
    assert_eq!(listed.len(), 4);
    let expired: Vec<_> = listed.iter().filter(|c| c.expired).collect();
    assert_eq!(expired.len(), 1);
    assert_eq!(expired[0].blob, stale);
    assert!(!expired[0].eligible);
    assert_eq!(listed[0].variant.as_deref(), Some("flac"));
    assert_eq!(listed[0].snapshot.as_deref(), Some("2026-03-01T00:00:00Z"));
    assert_eq!(listed[0].td_kind.as_deref(), Some("fetch"));
}

#[test]
fn only_content_claims_with_a_blob_are_candidates() {
    let me = Identity::from_secret([1; 32]);
    let ci = CiHash::from_hash(BlobHash::of(b"a"));
    let relation = Claim::relation(ClaimKind::SameAs, ci, CiHash::from_hash(BlobHash::of(b"b")));
    let list = vec![Found {
        attestation: Attestation::sign(relation, &me).unwrap(),
        tdr: None,
        held: false,
        expired: false,
    }];
    let trust = Trust::new().with_own(me.dgid());
    assert!(artifacts(&trust, Policy::default(), &list).is_empty());
    let unsigned = Attestation::unsigned(Claim::content(
        ci,
        TdHash::from_hash(BlobHash::of(b"td")),
        BlobRef::from_hash(BlobHash::of(b"blob")),
    ));
    let listed = artifacts(
        &trust,
        Policy { minimum: TrustLevel::Unknown, ..Policy::default() },
        &vec![Found { attestation: unsigned, tdr: None, held: false, expired: false }],
    );
    assert_eq!(listed.len(), 1);
    assert!(!listed[0].eligible);
    assert_eq!(listed[0].level, TrustLevel::Unknown);
    assert_eq!(listed[0].td_kind, None);
}
