use spirit::peers::{LinkState, RefStatus, DEAD_AFTER_NANOS};
use spirit::registry::PeerRegistry;

const SECOND: u128 = 1_000_000_000;
const NOW: u128 = 1_700_000_000 * SECOND;

#[test]
fn pruning_drops_the_long_silent_and_keeps_the_fresh() {
    let mut registry = PeerRegistry::new();
    registry.note_dial_success("fresh", NOW);
    registry.note_dial_success("stale", NOW - 2 * 60 * 60 * SECOND);

    let dropped = registry.prune_dead(DEAD_AFTER_NANOS, NOW);
    assert_eq!(dropped, vec!["stale".to_string()]);
    let ids = registry.ids();
    assert!(ids.contains(&"fresh".to_string()));
    assert!(!ids.contains(&"stale".to_string()));
}

#[test]
fn failed_dials_and_hearsay_are_not_activity_so_a_dead_peer_still_ages_out() {
    let mut registry = PeerRegistry::new();
    registry.note_dial_success("dead", NOW - 2 * 60 * 60 * SECOND);
    registry.note_dial_failure("dead", "timed out".into(), NOW);
    registry.learned_by_gossip("dead", "friend", NOW);
    registry.set_outcome("dead", "pull of hob failed".into(), NOW);

    assert_eq!(registry.prune_dead(DEAD_AFTER_NANOS, NOW), vec!["dead".to_string()]);
}

#[test]
fn a_completed_exchange_is_activity_and_keeps_a_peer() {
    let mut registry = PeerRegistry::new();
    registry.note_dial_success("back", NOW - 2 * 60 * 60 * SECOND);
    registry.note_advertised_refs("back", vec!["hob".into()], NOW);

    assert!(registry.prune_dead(DEAD_AFTER_NANOS, NOW).is_empty());
}

#[test]
fn pruning_never_drops_a_peer_holding_a_live_connection() {
    let mut registry = PeerRegistry::new();
    let key = registry.connection_opened("busy", NOW - 5 * 60 * 60 * SECOND);
    assert!(registry.prune_dead(DEAD_AFTER_NANOS, NOW).is_empty());
    assert!(registry.ids().contains(&"busy".to_string()));
    registry.connection_closed(&key, NOW);
}

#[test]
fn pruning_an_empty_registry_is_quiet() {
    let mut registry = PeerRegistry::new();
    assert!(registry.prune_dead(DEAD_AFTER_NANOS, NOW).is_empty());
}

#[test]
fn byte_counts_accumulate_as_deltas_across_samples() {
    let mut registry = PeerRegistry::new();
    let key = registry.connection_opened("peer-a", NOW);
    registry.observe(&key, 1_000, 100, None, NOW);
    registry.observe(&key, 4_000, 400, None, NOW);
    registry.connection_closed(&key, NOW);

    let peer = registry.snapshot(NOW).remove(0);
    assert_eq!(peer.wire_bytes_sent, 4_000);
    assert_eq!(peer.wire_bytes_received, 400);
    assert_eq!(peer.state, LinkState::Reachable);
    assert_eq!(peer.total_connections, 1);
}

#[test]
fn concurrent_connections_to_one_peer_sum_independently() {
    let mut registry = PeerRegistry::new();
    let first = registry.connection_opened("peer-a", NOW);
    let second = registry.connection_opened("peer-a", NOW);
    registry.observe(&first, 500, 50, None, NOW);
    registry.observe(&second, 700, 70, None, NOW);
    registry.observe(&first, 900, 90, None, NOW);

    let peer = registry.snapshot(NOW).remove(0);
    assert_eq!(peer.wire_bytes_sent, 1_600);
    assert_eq!(peer.wire_bytes_received, 160);
    assert_eq!(peer.live_connections, 2);
    assert_eq!(peer.state, LinkState::Connected);
}

#[test]
fn a_peer_we_only_hold_a_ticket_for_is_never_reached() {
    let mut registry = PeerRegistry::new();
    registry.introduce_provider("peer-b", "blobabc", NOW);

    let peer = registry.snapshot(NOW).remove(0);
    assert_eq!(peer.state, LinkState::NeverReached);
    assert!(peer.we_fetched_from_them);
    assert!(!peer.we_served_them);
    assert!(!peer.wire_bytes_known);
    assert_eq!(peer.ticket.as_deref(), Some("blobabc"));
}

#[test]
fn payload_bytes_track_the_fetch_side_where_wire_bytes_are_unavailable() {
    let mut registry = PeerRegistry::new();
    registry.introduce_provider("peer-c", "blobxyz", NOW);
    registry.add_payload_received("peer-c", 17_000_000, NOW);
    registry.note_ref("peer-c", "hob", NOW);

    let peer = registry.snapshot(NOW).remove(0);
    assert_eq!(peer.payload_bytes_received, 17_000_000);
    assert!(!peer.wire_bytes_known);
    assert_eq!(peer.state, LinkState::Reachable);
    assert_eq!(peer.introduced_by_ref.as_deref(), Some("hob"));
}

#[test]
fn the_snapshot_lists_the_most_recently_heard_first() {
    let mut registry = PeerRegistry::new();
    registry.note_dial_success("b", NOW - 10 * SECOND);
    registry.note_dial_success("c", NOW - 10 * SECOND);
    registry.note_dial_success("a", NOW - 20 * SECOND);
    registry.note_dial_success("d", NOW);
    let ids: Vec<String> = registry.snapshot(NOW).into_iter().map(|peer| peer.id).collect();
    assert_eq!(ids, vec!["d", "b", "c", "a"]);
    assert_eq!(registry.ids(), vec!["a", "b", "c", "d"]);
}

#[test]
fn a_remembered_peer_keeps_its_times_and_is_not_overwritten() {
    let mut registry = PeerRegistry::new();
    registry.remember("old", NOW - 100 * SECOND, NOW - 50 * SECOND, vec!["hob".into()], Some("ticket".into()));
    registry.remember("old", NOW, NOW, Vec::new(), None);
    let peer = registry.snapshot(NOW).remove(0);
    assert_eq!(peer.first_seen, NOW - 100 * SECOND);
    assert_eq!(peer.last_activity, NOW - 50 * SECOND);
    assert_eq!(peer.refs_advertised, vec!["hob".to_string()]);
    assert_eq!(peer.ticket.as_deref(), Some("ticket"));
    assert_eq!(peer.discovery.label(), "remembered from the last run");
    assert_eq!(peer.state, LinkState::NeverReached);
}

#[test]
fn gossip_names_the_introducer_only_of_a_peer_that_never_connected() {
    let mut registry = PeerRegistry::new();
    registry.learned_by_gossip("quiet", "friend-with-a-long-id", NOW);
    let key = registry.connection_opened("busy", NOW);
    registry.learned_by_gossip("busy", "friend", NOW);
    registry.connection_closed(&key, NOW);
    let listed = registry.snapshot(NOW);
    let quiet = listed.iter().find(|p| p.id == "quiet").unwrap();
    let busy = listed.iter().find(|p| p.id == "busy").unwrap();
    assert_eq!(quiet.discovery.label(), "introduced by friend-with-");
    assert_eq!(busy.discovery.label(), "dialed us");
    assert_eq!(quiet.short_id(), "quiet");
}

#[test]
fn ref_statuses_keep_the_latest_status_of_each_name_in_order() {
    let mut registry = PeerRegistry::new();
    let status = |name: &str, held: u32| RefStatus {
        name: name.into(),
        manifest: String::new(),
        held,
        total: 10,
        providers: vec!["p".into()],
    };
    registry.set_ref_status(status("hob", 1));
    registry.set_ref_status(status("deck", 2));
    registry.set_ref_status(status("hob", 10));
    let listed = registry.ref_statuses();
    assert_eq!(listed.len(), 2);
    assert_eq!(listed[0].name, "deck");
    assert_eq!(listed[1].name, "hob");
    assert_eq!(listed[1].held, 10);
    assert!(listed[1].complete());
}

#[test]
fn dial_failures_count_up_and_a_success_forgets_them() {
    let mut registry = PeerRegistry::new();
    registry.note_dial_failure("p", "refused".into(), NOW);
    registry.note_dial_failure("p", "timed out".into(), NOW);
    let peer = registry.snapshot(NOW).remove(0);
    assert_eq!(peer.dial_failures, 2);
    assert_eq!(peer.last_dial_error.as_deref(), Some("timed out"));
    registry.note_dial_success("p", NOW);
    let peer = registry.snapshot(NOW).remove(0);
    assert_eq!(peer.dial_failures, 0);
    assert!(peer.last_dial_error.is_none());
    assert_eq!(peer.state, LinkState::Reachable);
    let later = registry.snapshot(NOW + 61 * SECOND).remove(0);
    assert_eq!(later.state, LinkState::Disconnected);
}
