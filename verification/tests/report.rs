use spirit::peers::RefStatus;
use spirit::registry::PeerRegistry;
use spirit::report::{fingerprint, join, peer_lines, ref_fingerprint, ref_lines, report_lines};

const SECOND: u128 = 1_000_000_000;
const NOW: u128 = 1_700_000_000 * SECOND;

#[test]
fn a_peer_shows_its_roles_link_bytes_and_origin() {
    let mut registry = PeerRegistry::new();
    registry.introduce_provider("peer-b-long-identifier", "blobabc", NOW);
    registry.add_payload_received("peer-b-long-identifier", 17_000_000, NOW);
    registry.note_ref("peer-b-long-identifier", "hob", NOW);
    registry.set_addrs(
        "peer-b-long-identifier",
        vec!["direct 1.2.3.4:5".into()],
        vec!["relay https://relay.example/".into()],
        NOW,
    );
    registry.note_dial_failure("peer-b-long-identifier", "timed out".into(), NOW);
    let peer = registry.snapshot(NOW + 90 * SECOND).remove(0);
    let lines = peer_lines(&peer, Some("12.5"), NOW + 90 * SECOND);
    assert_eq!(
        lines,
        vec![
            "  peer-b-long- [fetched from] disconnected via direct — scanned ticket",
            "    dial failures: 1 (timed out)",
            "    payload received: 16.21 MiB",
            "    rtt: 12.5ms",
            "    active: direct 1.2.3.4:5",
            "    inactive: relay https://relay.example/",
            "    ref: hob",
            "    last activity: 1m ago",
        ]
    );
}

#[test]
fn a_served_peer_shows_its_wire_bytes_and_adverts() {
    let mut registry = PeerRegistry::new();
    let key = registry.connection_opened("p", NOW);
    registry.observe(&key, 2_048, 512, None, NOW);
    registry.note_advertised_refs("p", vec!["hob".into(), "deck".into()], NOW);
    registry.set_outcome("p", "pulled hob".into(), NOW);
    let peer = registry.snapshot(NOW).remove(0);
    let lines = peer_lines(&peer, None, NOW);
    assert_eq!(
        lines,
        vec![
            "  p [served] connected via unknown — dialed us",
            "    advertises: hob, deck",
            "    wire: sent 2.0 KiB / recv 512 B over 1 connection(s)",
            "    outcome: pulled hob",
            "    last activity: just now",
        ]
    );
    assert_eq!(fingerprint(&vec![peer]), "p:2048:512:0:connected:");
}

#[test]
fn a_ref_shows_its_status_and_who_holds_it() {
    let status = RefStatus {
        name: "hob".into(),
        manifest: String::new(),
        held: 194,
        total: 194,
        providers: vec!["aaaaaaaaaaaaaaaaaaaa".into(), "bb".into()],
    };
    assert_eq!(
        ref_lines(&status),
        vec!["  hob — complete (194 blobs)", "    complete on: aaaaaaaaaaaa, bb"]
    );
    let partial = RefStatus { held: 100, providers: Vec::new(), ..status.clone() };
    assert_eq!(ref_lines(&partial), vec!["  hob — partial (100/194)"]);
    assert_eq!(
        ref_fingerprint(&vec![status, partial]),
        "hob:194:194:aaaaaaaaaaaaaaaaaaaa,bb|hob:100:194:"
    );
}

#[test]
fn a_report_lists_peers_then_refs() {
    let mut registry = PeerRegistry::new();
    registry.introduce_seed("s", NOW);
    let snapshot = registry.snapshot(NOW);
    let refs = vec![RefStatus {
        name: "deck".into(),
        manifest: String::new(),
        held: 0,
        total: 0,
        providers: Vec::new(),
    }];
    let lines = report_lines(&snapshot, &vec![None], &refs, NOW);
    assert_eq!(
        lines,
        vec![
            "-- peers --",
            "  s [] never reached via unknown — scanned ticket",
            "    last activity: just now",
            "-- refs --",
            "  deck — missing",
        ]
    );
    assert_eq!(join(&vec!["a".into(), "b".into(), "c".into()], "+"), "a+b+c");
    assert_eq!(join(&Vec::new(), "+"), "");
}
