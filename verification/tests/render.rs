use spirit::ops::{
    Artifact, AttestationView, BlobInfo, CollectionOwner, CollectionSummary, CollectionView, ExternalId,
    IdentityEntry, IdentityInfo, IndexView, ItemView, MemberView, OpView, Pick, RefInfo, TrustEntry,
};
use spirit::render::{
    blobs_text, claim_line, collection_lines, collections_text, identity_lines, index_lines, lock_lines,
    members_text, ops_text, published, ran_lines, record_lines, refs_text, resolve_lines, revoke_lines, short,
    trust_set_lines, trust_text, wrote_lines,
};

fn attestation(kind: &str, signer: Option<&str>) -> AttestationView {
    AttestationView {
        hash: "aa".into(),
        kind: kind.into(),
        ci: "ci:11".into(),
        td: Some("td:22".into()),
        blob: Some("blob:33".into()),
        other: Some("ci:44".into()),
        expires: None,
        signer: signer.map(String::from),
        level: "cache".into(),
    }
}

#[test]
fn empty_listings_say_so() {
    assert_eq!(refs_text(&Vec::new()), "no refs\n");
    assert_eq!(blobs_text(&Vec::new()), "no blobs\n");
    assert_eq!(collections_text(&Vec::new()), "no collections\n");
    assert_eq!(ops_text(&Vec::new()), "no ops\n");
    assert_eq!(members_text(&Vec::new()), "no members; the group collection is empty\n");
    assert_eq!(trust_text(&Vec::new()), "");
}

#[test]
fn listings_put_one_record_on_each_line() {
    let refs = vec![
        RefInfo { name: "decks/mtg".into(), hash: "ab".into(), kind: "collection".into() },
        RefInfo { name: "hob".into(), hash: "cd".into(), kind: "envelope".into() },
    ];
    assert_eq!(refs_text(&refs), "decks/mtg -> ab  [collection]\nhob -> cd  [envelope]\n");
    let blobs = vec![BlobInfo { hash: "ef".into(), size: 1234, kind: "cir".into() }];
    assert_eq!(blobs_text(&blobs), "ef      1234  cir\n");
    let ops = vec![OpView { seq: 7, hash: "01".into(), kind: "add".into(), target: "ci:9".into(), counted: false }];
    assert_eq!(ops_text(&ops), "seq   7  01  add ci:9  [ignored by fold]\n");
    let trust = vec![
        TrustEntry { dgid: "dgid:me".into(), level: "mesh".into() },
        TrustEntry { dgid: "dgid:you".into(), level: "contact".into() },
    ];
    assert_eq!(trust_text(&trust), "own: dgid:me (mesh)\ndgid:you contact\n");
    let members = vec![
        MemberView {
            node_id: "n1".into(),
            ci: "ci:1".into(),
            role: None,
            tags: Vec::new(),
            expires: None,
            verified: true,
            expired: true,
            this_device: true,
        },
        MemberView {
            node_id: "n2".into(),
            ci: "ci:2".into(),
            role: None,
            tags: Vec::new(),
            expires: None,
            verified: false,
            expired: false,
            this_device: false,
        },
    ];
    assert_eq!(members_text(&members), "n1  verified, expired  (this device)\nn2  UNVERIFIED\n");
    let summaries = vec![CollectionSummary {
        name: "decks/mtg".into(),
        head: "77".into(),
        owner: "dgid:0123456789abcdef".into(),
        items: 3,
        attestations: 1,
        closure: 9,
    }];
    assert_eq!(
        collections_text(&summaries),
        "decks/mtg  col:77  owner 01234567  3 item(s), 1 attestation(s), 9 blob(s) in closure\n"
    );
}

#[test]
fn claims_name_their_parts_and_a_short_signer() {
    assert_eq!(short("dgid:dgid:0123456789"), "01234567");
    assert_eq!(short("abc"), "abc");
    assert_eq!(
        claim_line(&attestation("content", Some("dgid:fedcba9876543210"))),
        "content ci:11 via td:22 -> blob:33  by fedcba98"
    );
    assert_eq!(claim_line(&attestation("same-as", None)), "same-as ci:11 -> ci:44  by unsigned");
}

#[test]
fn a_collection_shows_items_attestations_and_closure() {
    let view = CollectionView {
        name: "decks/mtg".into(),
        head: "77".into(),
        owner: "dgid:aa".into(),
        forked_from: Some("dgid:bb".into()),
        items: vec![
            ItemView { ci: "ci:1".into(), kind: "card".into(), label: Some("Ashe \"the\" bold".into()), default_td: None },
            ItemView { ci: "ci:2".into(), kind: "card".into(), label: None, default_td: Some("td:5".into()) },
        ],
        attestations: vec![attestation("content", None)],
        ops: 2,
        records: 1,
        closure: 6,
    };
    assert_eq!(
        collection_lines(&view),
        "collection decks/mtg  col:77\nowner: dgid:aa\nforked from: dgid:bb\nitems (2):\n    0  ci:1  [card]  \"Ashe \\\"the\\\" bold\"\n    1  ci:2  [card]  default td:5\nattestations (1):\n  att:aa  content ci:11 via td:22 -> blob:33  by unsigned\nclosure: 2 op(s), 1 record(s), 6 blob(s) total\n"
    );
}

#[test]
fn the_index_and_a_resolution_read_as_text() {
    let view = IndexView {
        collections: vec![CollectionOwner { name: "decks".into(), owner: "dgid:1".into() }],
        identities: vec![IdentityEntry {
            ci: "ci:1".into(),
            kind: "card".into(),
            linked_from: vec!["ci:2".into()],
            attestations: vec![attestation("content", None)],
        }],
        externals: vec![ExternalId { key: "isrc".into(), value: "X".into(), ci: "ci:1".into() }],
    };
    assert_eq!(
        index_lines(&view),
        "collections:\n  decks  owner dgid:1\ncontent identities:\n  ci:1  [card]\n    linked from ci:2\n    content ci:11 via td:22 -> blob:33  by unsigned  trust cache\nexternal ids:\n  isrc=X  ci:1\n"
    );
    let artifacts = vec![Artifact {
        blob: "b1".into(),
        td: "td:1".into(),
        td_kind: "http-get".into(),
        variant: Some("small".into()),
        snapshot: None,
        signer: None,
        level: "unknown".into(),
        held: true,
        expires: None,
        expired: false,
        eligible: false,
    }];
    let pick = Some(Pick { blob: "b1".into(), signer: "dgid:abcdefabcdef".into(), held: false });
    assert_eq!(
        resolve_lines("ci:1", "card", &artifacts, &vec![attestation("same-as", None)], &pick, "cache"),
        "ci:1  [card]\ncandidates:\n  blob:b1  http-get / small  signer invalid  trust unknown  held\n  same-as ci:11 -> ci:44  by unsigned\npick (minimum cache): blob:b1  signer abcdefab  not held\n"
    );
    assert_eq!(
        resolve_lines("ci:1", "card", &Vec::new(), &Vec::new(), &None, "mesh"),
        "ci:1  [card]\ncandidates:\npick (minimum mesh): none\n"
    );
}

#[test]
fn single_line_results_read_as_text() {
    assert_eq!(published("decks/mtg", "77"), "refs/decks/mtg -> col:77\n");
    assert_eq!(revoke_lines("n1", Some("88")), "revoked n1; refs/device-group -> col:88\n");
    assert_eq!(revoke_lines("n1", None), "n1 is not a member\n");
    assert_eq!(lock_lines("td:1", 3, 1), "td:1\n3 input(s) pinned, 1 fetched\n");
    assert_eq!(ran_lines("b", "att:1", 2, "td:1"), "blob:b\natt:1\n2 round(s) via td:1\n");
    assert_eq!(wrote_lines(12, "out.bin"), "wrote 12 bytes to out.bin\n");
    assert_eq!(trust_set_lines("dgid:1", "mesh"), "dgid:1 mesh\n");
    assert_eq!(
        record_lines("cir", "ci:1", Some("dgid:1"), false, "{}"),
        "cir  ci:1\nsigner: dgid:1 (signature INVALID)\n{}\n"
    );
    assert_eq!(record_lines("cir", "ci:1", None, true, "{}"), "cir  ci:1\n{}\n");
    let info = IdentityInfo {
        store: "/s".into(),
        dgid: "dgid:1".into(),
        node_id: "2".into(),
        key_path: "/s/identity/key".into(),
        node_key_path: "/s/identity/node".into(),
    };
    assert_eq!(
        identity_lines(&info),
        "store: /s\ndgid: dgid:1  (group key: /s/identity/key)\nnode id: 2  (device key: /s/identity/node)\n"
    );
}
