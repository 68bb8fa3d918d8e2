use spirit::address::{BlobRef, CiHash, TdHash};
use spirit::cbor::Value;
use spirit::collection::{publish, Collection};
use spirit::identity::Identity;
use spirit::index::Index;
use spirit::pipeline::{expired, gives_up, lock, next_round, resolve_in, run, RoundStep};
use spirit::record::{Attestation, Cir, Claim, Tdr};
use spirit::routing::text_field;
use spirit::store::{BlobHash, MemBlobs};
use spirit::transform::{
    inputs, is_locked, Fetcher, Input, RunReply, RunRequest, TransformRunner, HTTP_GET, MAX_ROUNDS,
    WASM_TRANSFORM,
};
use spirit::trust::Trust;
use std::cell::RefCell;

const NOW: &str = "2026-05-01T00:00:00Z";

fn text(s: &str) -> Value {
    Value::Text(s.to_string())
}

fn table(entries: Vec<(&str, Value)>) -> Value {
    Value::Table(entries.into_iter().map(|(k, v)| (text(k), v)).collect())
}

struct Web(RefCell<Vec<String>>);

impl Fetcher for Web {
    fn get(&self, url: &str) -> Result<Vec<u8>, String> {
        self.0.borrow_mut().push(url.to_string());
        Ok(format!("body of {url}").into_bytes())
    }
}

struct Concat;

impl TransformRunner for Concat {
    fn run(&self, module: &[u8], request: &RunRequest) -> Result<RunReply, String> {
        assert_eq!(module, b"wasm bytes");
        if !request.inputs.iter().any(|(name, _)| name == "https://example.test/second") {
            return Ok(RunReply::NeedInputs(vec!["https://example.test/second".into()]));
        }
        let mut out = Vec::new();
        for (name, bytes) in &request.inputs {
            out.extend(name.as_bytes());
            out.push(b'=');
            out.extend(bytes);
            out.push(b'\n');
        }
        Ok(RunReply::Output(out))
    }
}

fn seed_song(store: &mut MemBlobs, me: &Identity) -> (CiHash, BlobHash, Vec<(String, BlobHash)>) {
    let cir = Cir::new("item", &table(vec![("name", text("Leaves from the Vine"))])).unwrap();
    let ci = CiHash::from_hash(store.put(&cir.encode().unwrap()).unwrap());
    let flac = store.put(b"flac").unwrap();
    let td = TdHash::from_hash(
        store
            .put(&Tdr::new("flac-encode", &table(vec![("variant", text("flac"))])).unwrap().encode().unwrap())
            .unwrap(),
    );
    let att = Attestation::sign(Claim::content(ci, td, BlobRef::from_hash(flac)), me).unwrap();
    let att = store.put(&att.encode().unwrap()).unwrap();
    let mut refs = Vec::new();
    publish(
        store,
        &mut refs,
        &Collection::new("playlist", "songs", me.dgid()).with(Vec::new(), vec![ci.hash(), att]),
    )
    .unwrap();
    (ci, flac, refs)
}

fn named<'a>(list: &'a [(String, Input)], name: &str) -> &'a Input {
    &list.iter().find(|(n, _)| n == name).unwrap().1
}

#[test]
fn locking_pins_identities_queries_and_urls_and_records_provenance() {
    let mut store = MemBlobs::new();
    let me = Identity::from_secret([1; 32]);
    let (ci, flac, refs) = seed_song(&mut store, &me);
    let index = Index::build(&store, &refs);
    let trust = Trust::new().with_own(me.dgid());
    let preset = store.put(b"preset").unwrap();
    let tdr = Tdr::new(
        "mp3-encode",
        &table(vec![
            ("variant", text("mp3")),
            (
                "inputs",
                table(vec![
                    ("source", table(vec![("ci", text(&ci.to_string()))])),
                    (
                        "byname",
                        table(vec![(
                            "query",
                            table(vec![("kind", text("item")), ("name", text("Leaves from the Vine"))]),
                        )]),
                    ),
                    ("cover", table(vec![("url", text("https://example.test/cover.jpg"))])),
                    ("preset", table(vec![("blob", text(&format!("blob:{}", preset.to_hex())))])),
                ]),
            ),
        ]),
    )
    .unwrap();
    assert!(!is_locked(&tdr));
    let web = Web(RefCell::new(Vec::new()));
    let locked = lock(&mut store, &index, &trust, Some(&web), &tdr, NOW).unwrap();
    assert!(is_locked(&locked.tdr));
    assert_eq!(locked.fetched, 1);
    let pinned = inputs(&locked.tdr);
    assert_eq!(named(&pinned, "source").blob(), Some(flac));
    assert_eq!(named(&pinned, "byname").blob(), Some(flac));
    assert!(matches!(named(&pinned, "cover"), Input::Pinned { url: Some(url), .. } if url.ends_with("cover.jpg")));
    assert_eq!(text_field(&locked.tdr, "derived_from"), Some(tdr.address().unwrap().to_string()));
    assert!(text_field(&locked.tdr, "snapshot").is_some());
    assert_eq!(text_field(&locked.tdr, "variant").as_deref(), Some("mp3"));
    let again = lock(&mut store, &index, &trust, Some(&web), &locked.tdr, NOW).unwrap();
    assert_eq!(again.fetched, 0);
    assert!(lock(&mut store, &index, &trust, None::<&Web>, &tdr, NOW).is_err());
}

#[test]
fn a_transform_asks_for_inputs_until_it_can_produce_and_the_output_is_attested() {
    let mut store = MemBlobs::new();
    let me = Identity::from_secret([1; 32]);
    let (ci, _, refs) = seed_song(&mut store, &me);
    let index = Index::build(&store, &refs);
    let trust = Trust::new().with_own(me.dgid());
    let module = store.put(b"wasm bytes").unwrap();
    let tdr = Tdr::new(
        WASM_TRANSFORM,
        &table(vec![
            ("module", text(&format!("blob:{}", module.to_hex()))),
            ("inputs", table(vec![("first", table(vec![("url", text("https://example.test/first"))]))])),
        ]),
    )
    .unwrap();
    let web = Web(RefCell::new(Vec::new()));
    let locked = lock(&mut store, &index, &trust, Some(&web), &tdr, NOW).unwrap();
    let ran = run(&mut store, &me, Some(&Concat), Some(&web), locked.td, ci).unwrap();
    assert_eq!(ran.rounds, 2);
    assert_ne!(ran.td, locked.td);
    let output = String::from_utf8(store.get(ran.blob).unwrap()).unwrap();
    assert!(output.contains("first=body of https://example.test/first"));
    assert!(output.contains("https://example.test/second=body of https://example.test/second"));
    let attestation = Attestation::decode(&store.get(ran.att.hash()).unwrap()).unwrap();
    assert_eq!(attestation.claim.ci, ci);
    assert_eq!(attestation.claim.td, Some(ran.td));
    assert_eq!(attestation.signer(), Some(me.dgid()));
    let final_tdr = Tdr::decode(&store.get(ran.td.hash()).unwrap()).unwrap();
    assert!(is_locked(&final_tdr));
    assert_eq!(inputs(&final_tdr).len(), 2);
    assert_eq!(web.0.borrow().len(), 2);
}

#[test]
fn running_needs_a_lock_and_a_runtime() {
    let mut store = MemBlobs::new();
    let me = Identity::from_secret([1; 32]);
    let (ci, _, refs) = seed_song(&mut store, &me);
    let unlocked = Tdr::new(
        WASM_TRANSFORM,
        &table(vec![
            ("module", text("blob:00")),
            ("inputs", table(vec![("x", table(vec![("url", text("https://example.test"))]))])),
        ]),
    )
    .unwrap();
    let td = TdHash::from_hash(store.put(&unlocked.encode().unwrap()).unwrap());
    assert!(run(&mut store, &me, Some(&Concat), None::<&Web>, td, ci).unwrap_err().contains("not locked"));
    let descriptive = Tdr::new("flac-encode", &table(vec![("variant", text("flac"))])).unwrap();
    let td = TdHash::from_hash(store.put(&descriptive.encode().unwrap()).unwrap());
    assert!(run(&mut store, &me, None::<&Concat>, None::<&Web>, td, ci).unwrap_err().contains("no runtime"));
    let get = Tdr::new(HTTP_GET, &table(vec![("url", text("https://example.test/x"))])).unwrap();
    let index = Index::build(&store, &refs);
    let trust = Trust::new().with_own(me.dgid());
    let web = Web(RefCell::new(Vec::new()));
    let locked = lock(&mut store, &index, &trust, Some(&web), &get, NOW).unwrap();
    assert!(run(&mut store, &me, None::<&Concat>, None::<&Web>, locked.td, ci).unwrap_err().contains("no fetcher"));
    let ran = run(&mut store, &me, None::<&Concat>, Some(&web), locked.td, ci).unwrap();
    assert_eq!(store.get(ran.blob).unwrap(), b"body of https://example.test/x");
    assert_eq!(ran.rounds, 1);
    assert_eq!(ran.td, locked.td);
}

#[test]
fn a_run_gives_up_past_the_round_limit() {
    assert!(!gives_up(MAX_ROUNDS));
    assert!(gives_up(MAX_ROUNDS + 1));
}

#[test]
fn a_round_fetches_only_urls_not_pinned_yet() {
    let declared = vec![
        ("a".to_string(), Input::Pinned { ci: None, url: Some("https://x/1".into()), blob: BlobHash::of(b"1") }),
        ("b".to_string(), Input::Url("https://x/2".into())),
    ];
    let asked = RunReply::NeedInputs(vec![
        "https://x/1".into(),
        "https://x/2".into(),
        "https://x/3".into(),
        "https://x/2".into(),
    ]);
    assert_eq!(
        next_round(&declared, &asked),
        RoundStep::Fetch(vec!["https://x/2".to_string(), "https://x/3".to_string()])
    );
    assert_eq!(
        next_round(&declared, &RunReply::Output(b"done".to_vec())),
        RoundStep::Store(b"done".to_vec())
    );
}

#[test]
fn a_lock_refuses_an_identity_nothing_trusted_resolves() {
    let mut store = MemBlobs::new();
    let me = Identity::from_secret([1; 32]);
    let (ci, _, refs) = seed_song(&mut store, &me);
    let index = Index::build(&store, &refs);
    let stranger = Trust::new().with_own(Identity::from_secret([9; 32]).dgid());
    let tdr = Tdr::new(
        "mp3-encode",
        &table(vec![("inputs", table(vec![("source", table(vec![("ci", text(&ci.to_string()))]))]))]),
    )
    .unwrap();
    let refused = lock(&mut store, &index, &stranger, None::<&Web>, &tdr, NOW).unwrap_err();
    assert_eq!(refused, format!("input \"source\": nothing trusted resolves {}", ci.to_string()));
}

#[test]
fn resolution_picks_the_trusted_artifact_and_nothing_for_strangers() {
    let mut store = MemBlobs::new();
    let me = Identity::from_secret([1; 32]);
    let (ci, flac, refs) = seed_song(&mut store, &me);
    let index = Index::build(&store, &refs);
    let own = Trust::new().with_own(me.dgid());
    assert_eq!(resolve_in(&store, &index, &own, ci, NOW), Some(flac));
    let stranger = Trust::new().with_own(Identity::from_secret([9; 32]).dgid());
    assert_eq!(resolve_in(&store, &index, &stranger, ci, NOW), None);
    let other = CiHash::from_hash(BlobHash::of(b"no such identity"));
    assert_eq!(resolve_in(&store, &index, &own, other, NOW), None);
}

#[test]
fn a_claim_expires_once_its_time_has_passed() {
    assert!(expired(&Some("2026-04-30T23:59:59Z".to_string()), NOW));
    assert!(!expired(&Some(NOW.to_string()), NOW));
    assert!(!expired(&Some("2027-01-01T00:00:00Z".to_string()), NOW));
    assert!(!expired(&None, NOW));
}

#[test]
fn a_lock_with_a_url_input_and_no_fetcher_is_refused() {
    let mut store = MemBlobs::new();
    let me = Identity::from_secret([1; 32]);
    let (_, _, refs) = seed_song(&mut store, &me);
    let index = Index::build(&store, &refs);
    let own = Trust::new().with_own(me.dgid());
    let tdr = Tdr::new(
        "mp3-encode",
        &table(vec![("inputs", table(vec![("page", table(vec![("url", text("https://example.test/a"))]))]))]),
    )
    .unwrap();
    let refused = lock(&mut store, &index, &own, None::<&Web>, &tdr, NOW).unwrap_err();
    assert_eq!(refused, "input \"page\" is a url and no fetcher is registered on this node");
}
