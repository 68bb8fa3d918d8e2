use spirit::api::{self, ApiReply, MAX_FRAME, MAX_SOCKET_PATH};
use spirit::cli::{arg, split_store_flag, take_flag};
use spirit::fetch::{dechunk, parse_response, target, Target};
use spirit::cbor::Value;
use spirit::gateway::{
    disposition, plan_get, GetPlan, blob_totals, fixed_reply, manifest_ref_name, writes_enabled, percent_decode, route, route_request, split_target, Dispatch,
    PostPlan,
};
use spirit::post::{blob_reply, check_edit, post_input, write_blob, Edit, PostInput};
use spirit::provider::{best_provider, PeerOffer};
use spirit::store::MemBlobs;
use spirit::gossip::{vouched_dgid, RefAdvert};
use spirit::http::{read_head, response_head};
use spirit::identity::{vouch, Dgid, Identity};
use spirit::lock::{self, Taking};
use spirit::mesh::{
    admits_introduction, followed_names, own_group, gateway_url, is_seed, owner_matches, pick_seed, reconcile_trust,
    status_fields, should_backfill, missing_everywhere, BACKFILL_RETRY_MS, BACKFILL_SETTLE_MS,
    safe_ref_name, same_adverts, status_url, wins_backfill_election, DIAL_FAILURE_LIMIT,
};
use spirit::node::quic_port_from;
use spirit::ops::{address_of, describe, gateway_alive, parse_hash, read_reply, BlobInfo, ReplyError};
use spirit::pair::{accept_join_reply, constant_time_eq, Invite, Offer, OFFER_TTL_MS};
use spirit::peers::{link_state, newly_complete, path_kind, LinkState, PathKind, RefStatus};
use spirit::schema::{collection_name, module_name, newer, version_key, Module, Role};
use spirit::store::BlobHash;
use spirit::trust::{Trust, TrustLevel};

#[test]
fn a_long_store_path_gets_a_short_socket_elsewhere() {
    assert_eq!(api::path("/tmp/s", "/run/user/1000"), "/tmp/s/api.sock");
    let long = format!("/tmp/{}", "x".repeat(120));
    let socket = api::path(&long, "/run/user/1000");
    assert!(socket.len() < MAX_SOCKET_PATH);
    assert!(socket.contains("spirit-"));
    assert_eq!(api::path(&long, "/run/user/1000"), socket);
    let key = BlobHash::of(long.as_bytes()).to_hex();
    assert_eq!(socket, format!("/run/user/1000/spirit-{}.sock", &key[..16]));
}

#[test]
fn frames_round_trip_with_binary_bodies() {
    let payload = vec![0u8, 159, 146, 150];
    let frame = api::frame(&payload);
    let len = u32::from_be_bytes(frame[..4].try_into().unwrap()) as usize;
    assert_eq!(len, frame.len() - 4);
    assert_eq!(api::frame_len(frame[..4].try_into().unwrap()), Some(4));
    assert_eq!(&frame[4..], payload.as_slice());
    assert_eq!(api::frame_len([0x10, 0, 0, 1]), None);
    assert_eq!(api::frame_len([0x10, 0, 0, 0]), Some(MAX_FRAME));
}

#[test]
fn a_daemon_is_alive_only_when_its_status_answers_ok() {
    let ok = ApiReply { status: 200, content_type: "application/json".into(), body: Vec::new() };
    let not = ApiReply { status: 503, content_type: "application/json".into(), body: Vec::new() };
    assert!(api::alive(&Some(ok)));
    assert!(!api::alive(&Some(not)));
    assert!(!api::alive(&None));
}

#[test]
fn store_flag_is_split_from_anywhere() {
    let (rest, store) =
        split_store_flag(["a", "--store", "/tmp/x", "b"].iter().map(|s| s.to_string()).collect()).unwrap();
    assert_eq!(rest, vec!["a", "b"]);
    assert_eq!(store.as_deref(), Some("/tmp/x"));
}

#[test]
fn a_dangling_store_flag_is_an_error_and_the_last_one_wins() {
    assert!(split_store_flag(vec!["a".into(), "--store".into()]).is_err());
    let (rest, store) = split_store_flag(
        ["--store", "/a", "x", "--store", "/b"].iter().map(|s| s.to_string()).collect(),
    )
    .unwrap();
    assert_eq!(rest, vec!["x"]);
    assert_eq!(store.as_deref(), Some("/b"));
}

#[test]
fn a_flag_and_its_value_are_taken_out_of_the_arguments() {
    let mut args: Vec<String> = ["get", "h", "--out", "f"].iter().map(|s| s.to_string()).collect();
    assert_eq!(take_flag(&mut args, "--out").unwrap(), Some("f".to_string()));
    assert_eq!(args, vec!["get", "h"]);
    assert_eq!(take_flag(&mut args, "--out").unwrap(), None);
    let mut dangling: Vec<String> = vec!["get".into(), "--out".into()];
    assert_eq!(take_flag(&mut dangling, "--out").unwrap_err(), "--out needs a value");
    assert_eq!(dangling, vec!["get"]);
    assert_eq!(arg(&args, 1, "hash").unwrap(), "h");
    assert_eq!(arg(&args, 2, "hash").unwrap_err(), "missing hash; see spirit-node help");
}

#[test]
fn hashes_parse_with_or_without_a_prefix() {
    let hash = BlobHash::of(b"x");
    assert_eq!(parse_hash(&format!("ci:{}", hash.to_hex())).unwrap(), hash);
    assert_eq!(parse_hash(&hash.to_hex()).unwrap(), hash);
    assert!(parse_hash("ci:nope").is_err());
    assert_eq!(parse_hash("  ci:nope ").unwrap_err(), "\"ci:nope\" is not a hash");
}

#[test]
fn a_record_is_described_and_addressed_by_its_type() {
    let hash = BlobHash::of(b"x");
    assert_eq!(address_of("cir (card)", hash), format!("ci:{}", hash.to_hex()));
    assert_eq!(address_of("collection", hash), format!("col:{}", hash.to_hex()));
    assert_eq!(address_of("bytes", hash), hash.to_hex());
    assert_eq!(describe(b"plain bytes"), "bytes");
    let cir = spirit::record::Cir::new("card", &spirit::cbor::Value::Table(Vec::new())).unwrap();
    assert_eq!(describe(&cir.encode().unwrap()), "cir (card)");
}

#[test]
fn a_gateway_reply_is_read_and_a_status_page_shows_a_live_gateway() {
    let (status, body) = read_reply(b"HTTP/1.1 200 OK\r\nContent-Length: 2\r\n\r\n{\"node_id\":1}").unwrap();
    assert_eq!(status, 200);
    assert_eq!(body, b"{\"node_id\":1}");
    assert_eq!(read_reply(b"HTTP/1.1 200 OK"), Err(ReplyError::Malformed));
    assert_eq!(read_reply(b"HTTP/1.1\r\n\r\n"), Err(ReplyError::NoStatus));
    assert!(gateway_alive(&Some((200, body.clone()))));
    assert!(!gateway_alive(&Some((200, b"{}".to_vec()))));
    assert!(!gateway_alive(&Some((500, body))));
    assert!(!gateway_alive(&None));
}

#[test]
fn an_http_url_parses_to_host_port_and_path() {
    assert_eq!(
        target("http://gateway.local").unwrap(),
        Target { host: "gateway.local".into(), port: 80, path: "/".into() }
    );
    assert_eq!(
        target("http://127.0.0.1:8090/gateway/status").unwrap(),
        Target { host: "127.0.0.1".into(), port: 8090, path: "/gateway/status".into() }
    );
    assert_eq!(
        target("http://[::1]:8090/x").unwrap(),
        Target { host: "::1".into(), port: 8090, path: "/x".into() }
    );
    assert_eq!(target("http://x:99").unwrap().authority(), "x:99");
    assert_eq!(target("http://x").unwrap().authority(), "x");
    assert!(target("https://gateway.local").unwrap_err().contains("set_fetch"));
    assert!(target("ftp://gateway.local").is_err());
    assert!(target("http://").is_err());
    assert!(target("http://x:notaport").is_err());
}

#[test]
fn a_content_length_reply_yields_its_body_and_status() {
    let raw = b"HTTP/1.1 200 OK\r\nContent-Type: application/json\r\nContent-Length: 5\r\n\r\n{\"a\":1}";
    let (status, body) = parse_response(raw).unwrap();
    assert_eq!(status, 200);
    assert_eq!(body, b"{\"a\":");
    let (status, body) = parse_response(b"HTTP/1.1 404 Not Found\r\n\r\nnope").unwrap();
    assert_eq!(status, 404);
    assert_eq!(body, b"nope");
    assert!(parse_response(b"garbage").is_err());
}

#[test]
fn a_chunked_reply_is_reassembled() {
    let raw = b"HTTP/1.1 200 OK\r\nTransfer-Encoding: chunked\r\n\r\n4\r\n{\"a\"\r\n3;ext=1\r\n:1}\r\n0\r\n\r\n";
    let (status, body) = parse_response(raw).unwrap();
    assert_eq!(status, 200);
    assert_eq!(body, b"{\"a\":1}");
    assert!(dechunk(b"5\r\nab").is_err());
    assert!(dechunk(b"zz\r\n").is_err());
}

#[test]
fn percent_decoding_handles_escapes_plus_and_garbage() {
    assert_eq!(
        percent_decode("https%3A%2F%2Fa.example%2Fx%3Fy%3D1"),
        Some("https://a.example/x?y=1".into())
    );
    assert_eq!(percent_decode("3+Emberwing+Scout"), Some("3 Emberwing Scout".into()));
    assert_eq!(percent_decode("plain"), Some("plain".into()));
    assert_eq!(percent_decode("%zz"), None);
    assert_eq!(percent_decode("%2"), None);
}

#[test]
fn a_percent_escape_takes_two_hex_digits() {
    assert_eq!(percent_decode("%+1"), None);
    assert_eq!(percent_decode("%4A"), Some("J".into()));
}

#[test]
fn ref_names_cannot_escape_the_refs_dir() {
    assert_eq!(manifest_ref_name("/gateway/ref/hob/manifest").as_deref(), Some("hob"));
    assert_eq!(manifest_ref_name("/gateway/ref/../secrets/manifest"), None);
    assert_eq!(manifest_ref_name("/gateway/ref//manifest"), None);
    assert_eq!(manifest_ref_name("/gateway/ref/a/b/manifest"), None);
}

fn advert(name: &str, total: u32, held: u32) -> RefAdvert {
    RefAdvert { name: name.into(), manifest: "ab".repeat(32), total, held, owner: None }
}

#[test]
fn a_partial_ref_does_not_claim_to_be_complete() {
    let advert = RefAdvert { name: "hob".into(), manifest: "cd".repeat(32), total: 194, held: 100, owner: None };
    assert!(!advert.complete());
}

#[test]
fn an_empty_ref_is_not_complete() {
    let advert = RefAdvert { name: "hob".into(), manifest: "ef".repeat(32), total: 0, held: 0, owner: None };
    assert!(!advert.complete());
}

#[test]
fn a_vouched_dgid_verifies_only_for_the_sender() {
    let group = Identity::from_secret([11; 32]);
    let me = [6u8; 32];
    let signature = vouch(&group, &me).to_string();
    let dgid = group.dgid().to_string();
    assert_eq!(vouched_dgid(Some(&dgid), Some(&signature), &me), Some(group.dgid()));
    assert!(vouched_dgid(Some(&dgid), Some(&signature), &[7u8; 32]).is_none());
    assert!(vouched_dgid(None, Some(&signature), &me).is_none());
    assert!(vouched_dgid(Some(&dgid), None, &me).is_none());
}

#[test]
fn the_quic_port_comes_from_the_environment_and_ignores_junk() {
    assert_eq!(quic_port_from(None), None);
    assert_eq!(quic_port_from(Some(" 4433 ")), Some(4433));
    assert_eq!(quic_port_from(Some("0")), None);
    assert_eq!(quic_port_from(Some("many")), None);
}

#[test]
fn adverts_compare_by_content_so_gossip_can_go_quiet() {
    let left = vec![advert("hob", 194, 194)];
    assert!(same_adverts(&left, &vec![advert("hob", 194, 194)]));
    assert!(!same_adverts(&left, &vec![advert("hob", 194, 100)]));
    assert!(!same_adverts(&left, &vec![]));
    let mut owned = advert("hob", 194, 194);
    owned.owner = Some("dgid:aa".into());
    assert!(!same_adverts(&left, &vec![owned]));
}

#[test]
fn a_ref_follows_its_owner_once_it_has_one() {
    let mine = Some("dgid:me".to_string());
    assert!(owner_matches(&mine, &Some("dgid:me".into())));
    assert!(!owner_matches(&mine, &Some("dgid:them".into())));
    assert!(owner_matches(&mine, &None));
    assert!(owner_matches(&None, &Some("dgid:them".into())));
    assert!(owner_matches(&None, &None));
}

#[test]
fn a_forgotten_peer_returns_only_by_speaking_to_us_not_by_hearsay() {
    let forgotten = vec!["dead".to_string()];
    assert!(!admits_introduction(&forgotten, "dead", Some("friend")));
    assert!(admits_introduction(&forgotten, "dead", None));
    assert!(admits_introduction(&forgotten, "stranger", Some("friend")));
}

fn election_winner(self_id: &str, reachable: &[&str], unreachable: &[&str]) -> bool {
    let mut known: Vec<(String, Option<u32>)> = Vec::new();
    for id in reachable {
        known.push(((*id).to_string(), Some(0)));
    }
    for id in unreachable {
        known.push(((*id).to_string(), Some(DIAL_FAILURE_LIMIT)));
    }
    wins_backfill_election(self_id, &known)
}

#[test]
fn exactly_one_reachable_node_wins_the_backfill_election() {
    let ids = ["aa", "bb", "cc"];
    let winners = ids
        .iter()
        .filter(|self_id| {
            let others: Vec<&str> = ids.iter().filter(|id| id != self_id).copied().collect();
            election_winner(self_id, &others, &[])
        })
        .count();
    assert_eq!(winners, 1);
    assert!(election_winner("aa", &["bb", "cc"], &[]));
    assert!(!election_winner("bb", &["aa", "cc"], &[]));
}

#[test]
fn an_unreachable_lower_node_does_not_block_the_election() {
    assert!(election_winner("bb", &["cc"], &["aa"]));
}

#[test]
fn a_lone_node_wins_its_own_election() {
    assert!(election_winner("zz", &[], &[]));
}

#[test]
fn a_gateway_url_is_recognised_as_a_seed_and_pointed_at_its_status() {
    assert_eq!(gateway_url("https://dev1.example.net/"), Some("https://dev1.example.net".to_string()));
    assert_eq!(gateway_url(" http://127.0.0.1:8090 "), Some("http://127.0.0.1:8090".to_string()));
    assert_eq!(gateway_url("endpointabc"), None);
    assert_eq!(gateway_url("ab".repeat(32).as_str()), None);
    assert_eq!(status_url("http://127.0.0.1:8090/"), "http://127.0.0.1:8090/gateway/status");
    assert!(is_seed("https://dev1.example.net", Err("not a peer".into())).is_ok());
    assert!(is_seed("not a seed", Err("not a peer".into())).is_err());
}

#[test]
fn ref_name_safety_permits_cards_and_modules_but_not_traversal() {
    assert!(safe_ref_name("hob"));
    assert!(safe_ref_name("modules/engine"));
    assert!(safe_ref_name("modules/riftbound-0.1"));
    assert!(!safe_ref_name("modules/../../identity"));
    assert!(!safe_ref_name("../escape"));
    assert!(!safe_ref_name("modules/"));
    assert!(safe_ref_name("cards/mtg"));
    assert!(!safe_ref_name("a/b/c/d"));
    assert!(!safe_ref_name(".hidden"));
    assert!(!safe_ref_name(""));
}

#[test]
fn only_a_trusted_peer_can_introduce_a_ref_name() {
    let peer_refs = vec![
        ("stranger".to_string(), vec![advert("modules/riftbound", 1, 1)]),
        ("trusted-peer".to_string(), vec![advert("hob", 1, 1), advert("modules/engine", 1, 1)]),
    ];
    let followed = followed_names(&peer_refs, &vec!["trusted-peer".to_string()]);
    assert!(followed.contains(&"hob".to_string()));
    assert!(followed.contains(&"modules/engine".to_string()));
    assert!(!followed.contains(&"modules/riftbound".to_string()));

    assert_eq!(followed_names(&peer_refs, &vec![]).len(), 0);
    assert_eq!(
        followed_names(&peer_refs, &vec!["trusted-peer".to_string(), "stranger".to_string()]).len(),
        3
    );
}

#[test]
fn a_vouched_group_and_its_device_share_the_higher_trust_level() {
    let device = Dgid::from_bytes([1; 32]);
    let group = Dgid::from_bytes([2; 32]);
    let mut trust = Trust::new();
    assert!(!reconcile_trust(&mut trust, device, group));
    trust.set(device, TrustLevel::Cache);
    assert!(reconcile_trust(&mut trust, device, group));
    assert_eq!(trust.level(group), TrustLevel::Cache);
    trust.set(group, TrustLevel::Mesh);
    assert!(reconcile_trust(&mut trust, device, group));
    assert_eq!(trust.level(device), TrustLevel::Mesh);
    assert!(!reconcile_trust(&mut trust, device, group));
}

#[test]
fn an_invite_round_trips_through_its_url() {
    let invite = Invite {
        ticket: "endpointabc".into(),
        dgid: Identity::from_secret([3; 32]).dgid(),
        token: [7; 32],
    };
    let url = invite.url();
    assert!(url.starts_with("spirit://pair?ticket=endpointabc&dgid="));
    assert_eq!(Invite::parse(&url).unwrap(), invite);
    assert!(Invite::parse("https://example.com").is_err());
    assert!(Invite::parse("spirit://pair?ticket=x&dgid=zz&token=00").is_err());
}

#[test]
fn an_offer_expires_and_compares_in_constant_time() {
    let now = 1_000u64;
    let offer = Offer::new(now).unwrap();
    assert!(offer.live(now));
    assert!(offer.seconds_left(now) <= OFFER_TTL_MS / 1000);
    assert_eq!(offer.token_hex().len(), 64);
    assert!(constant_time_eq(&offer.token, &offer.token));
    assert!(!constant_time_eq(&offer.token, &[0; 32]));
    assert!(!constant_time_eq(&offer.token, &offer.token[..31]));
    assert!(!offer.live(now + OFFER_TTL_MS));
    assert_eq!(offer.seconds_left(now + OFFER_TTL_MS + 5), 0);
}

const SECOND: u128 = 1_000_000_000;

#[test]
fn a_peer_we_gossiped_with_moments_ago_reads_as_reachable_not_gone() {
    assert_eq!(link_state(false, true, Some(15 * SECOND)), LinkState::Reachable);
    assert_eq!(link_state(false, true, Some(59 * SECOND)), LinkState::Reachable);
    assert_eq!(link_state(false, true, Some(120 * SECOND)), LinkState::Disconnected);
}

#[test]
fn a_live_connection_still_outranks_recency_and_a_stranger_is_never_reached() {
    assert_eq!(link_state(true, true, Some(9999 * SECOND)), LinkState::Connected);
    assert_eq!(link_state(false, false, Some(SECOND)), LinkState::NeverReached);
    assert_eq!(link_state(false, true, None), LinkState::Disconnected);
}

#[test]
fn path_kind_reads_the_active_address_list() {
    let mut registry = spirit::registry::PeerRegistry::new();
    registry.introduce_provider("peer-d", "blob1", 1_000);
    registry.set_addrs(
        "peer-d",
        vec!["direct 192.168.1.190:41234".into()],
        vec!["relay https://euw1-1.relay.iroh.link./".into()],
        1_000,
    );
    let peer = registry.snapshot(1_000).remove(0);
    assert_eq!(peer.path_kind(), PathKind::Direct);
    assert!(peer.has_active_path());
    assert_eq!(path_kind(&vec!["relay https://euw1-1.relay.iroh.link./".to_string()]), PathKind::Relay);
}

#[test]
fn a_ref_finishing_replication_is_reported_exactly_once() {
    let status = |name: &str, held: u32, total: u32| RefStatus {
        name: name.into(),
        manifest: String::new(),
        held,
        total,
        providers: Vec::new(),
    };
    let previous: Vec<String> = Vec::new();
    let (seen, fresh) = newly_complete(&previous, &vec![status("hob", 100, 194)]);
    assert!(fresh.is_empty());
    let (seen, fresh) = newly_complete(&seen, &vec![status("hob", 194, 194)]);
    assert_eq!(fresh, vec!["hob".to_string()]);
    let (_, fresh) = newly_complete(&seen, &vec![status("hob", 194, 194)]);
    assert!(fresh.is_empty());
}

#[test]
fn collection_names_round_trip() {
    assert_eq!(collection_name("riftbound"), "modules/riftbound");
    assert_eq!(module_name("modules/riftbound").as_deref(), Some("riftbound"));
    assert_eq!(module_name("cards/mtg"), None);
    assert_eq!(module_name("modules"), None);
}

#[test]
fn versions_order_by_their_numeric_parts_then_by_text() {
    assert_eq!(version_key("1.10.0-rc1"), vec![1, 10, 0, 0]);
    assert_eq!(version_key("0.2"), vec![0, 2]);
    assert!(newer("0.10.0", "0.9.0"));
    assert!(!newer("0.9.0", "0.10.0"));
    assert!(newer("1.0.0", "1.0"));
    assert!(newer("1.0.0-b", "1.0.0-a"));
    assert!(!newer("1.0.0", "1.0.0"));
    let module = Module::new("riftbound", Role::Plugin, "0.1.0", 3);
    assert_eq!(module.role.label(), "plugin");
    assert!(module.ci().unwrap().to_string().starts_with("ci:"));
}

#[test]
fn our_own_pid_is_alive_and_a_dead_or_stale_lock_is_taken_over() {
    let own = 4242u32;
    assert_eq!(lock::path("/s"), "/s/lock");
    assert_eq!(lock::recorded(0, "4242\n"), Some(4242));
    assert_eq!(lock::recorded(lock::STALE_AFTER_NANOS + 1, "4242\n"), None);
    assert_eq!(lock::recorded(0, "junk"), None);
    assert_eq!(lock::holder(Some(own), own, Some(false)), Some(own));
    assert!(lock::alive(own, own, Some(false)));
    assert_eq!(lock::taking(Some(own), own, Some(false)), Taking::Free);
    assert_eq!(lock::holder(Some(7), own, Some(false)), None);
    assert_eq!(lock::taking(Some(7), own, Some(false)), Taking::TakeOver(7));
    assert_eq!(lock::taking(Some(7), own, Some(true)), Taking::Held(7));
    assert_eq!(lock::taking(Some(7), own, None), Taking::Held(7));
    assert!(lock::releases(Some(own), own));
    assert!(!lock::releases(Some(7), own));
}

#[test]
fn a_request_head_is_read_from_its_line_and_headers() {
    let headers: Vec<String> = vec![
        "Host: 127.0.0.1".into(),
        "authorization: Bearer  tok3n ".into(),
        "Content-Length: 12".into(),
        "no colon here".into(),
    ];
    let head = read_head("POST /gateway/cir?x=1&y=2 HTTP/1.1\r\n", &headers).unwrap();
    assert_eq!(head.method, "POST");
    assert_eq!(head.path, "/gateway/cir");
    assert_eq!(head.query, "x=1&y=2");
    assert_eq!(head.bearer.as_deref(), Some("tok3n"));
    assert_eq!(head.length, 12);
    let plain = read_head("GET /", &vec!["Content-Length: nope".to_string()]).unwrap();
    assert_eq!(plain.path, "/");
    assert_eq!(plain.query, "");
    assert_eq!(plain.bearer, None);
    assert_eq!(plain.length, 0);
    let later = read_head("GET /", &vec!["content-length: 1".to_string(), "CONTENT-LENGTH: 2".to_string()]).unwrap();
    assert_eq!(later.length, 2);
    assert_eq!(read_head("POST /", &vec!["Content-Length: 268435457".to_string()]), Err(413));
    assert_eq!(read_head("", &vec![]).unwrap().method, "");
    let written = response_head(404, "application/json", 7, false, None);
    assert!(written.starts_with("HTTP/1.1 404 Not Found\r\nContent-Type: application/json\r\nContent-Length: 7\r\nCache-Control: no-store\r\n"));
    assert!(written.ends_with("Connection: close\r\n\r\n"));
    let attached = response_head(200, "text/plain", 0, true, Some("a.txt"));
    assert!(attached.contains("Cache-Control: public, max-age=31536000, immutable\r\n"));
    assert!(attached.contains("Content-Disposition: attachment; filename=\"a.txt\"\r\n"));
    assert!(response_head(599, "x", 0, false, None).starts_with("HTTP/1.1 599 Internal Server Error\r\n"));
}

fn field<'a>(v: &'a Value, name: &str) -> Option<&'a Value> {
    match v {
        Value::Table(entries) => entries
            .iter()
            .find(|(k, _)| *k == Value::Text(name.to_string()))
            .map(|(_, v)| v),
        _ => None,
    }
}

fn object(entries: &[(&str, &str)]) -> Value {
    Value::Table(
        entries
            .iter()
            .map(|(k, v)| (Value::Text(k.to_string()), Value::Text(v.to_string())))
            .collect(),
    )
}

fn status(d: &Dispatch) -> Option<u16> {
    fixed_reply(d).map(|(s, _)| s)
}

#[test]
fn unknown_paths_and_methods_are_refused() {
    assert_eq!(status(&route("GET", "/elsewhere")), Some(404));
    assert_eq!(status(&route("POST", "/gateway/refs")), Some(403));
    assert_eq!(status(&route("PUT", "/gateway/refs")), Some(405));
    assert_eq!(status(&route("OPTIONS", "/gateway/refs")), Some(204));
}

#[test]
fn writes_need_the_right_bearer_token() {
    let req = |bearer: Option<&str>| {
        route_request("POST", "/gateway/blob", "", false, Some("secret"), bearer)
    };
    assert_eq!(status(&req(None)), Some(401));
    assert_eq!(status(&req(Some("wrong"))), Some(401));
    let allowed = req(Some("secret"));
    assert_eq!(status(&allowed), None);
    let plan = match allowed {
        Dispatch::Post(plan) => plan,
        other => panic!("not a write: {other:?}"),
    };
    assert_eq!(plan, PostPlan::Blob);
    assert!(matches!(post_input(&plan, &Value::Null), Ok(PostInput::Blob)));
    let mut store = MemBlobs::new();
    let (code, reply) = write_blob(&mut store, b"hello");
    assert_eq!(code, 200);
    let hash = BlobHash::of(b"hello").to_hex();
    assert_eq!(field(&reply, "hash"), Some(&Value::Text(hash.clone())));
    assert_eq!(field(&reply, "size"), Some(&Value::Integer(5)));
    assert_eq!(blob_reply(&BlobHash::of(b"hello"), b"hello"), (code, reply));
    match plan_get(&format!("/gateway/blob/{hash}"), "name=hi.txt") {
        GetPlan::Blob { hash: asked, name } => {
            assert_eq!(asked, hash);
            let served = store.get(BlobHash::parse(&asked).unwrap()).unwrap();
            assert_eq!(served, b"hello");
            assert_eq!(disposition(name).as_deref(), Some("hi.txt"));
        },
        other => panic!("not a blob read: {other:?}"),
    }
}

#[test]
fn a_request_target_splits_at_its_first_question_mark() {
    assert_eq!(
        split_target("/gateway/resolve/deck?code=A?B"),
        ("/gateway/resolve/deck".to_string(), "code=A?B".to_string())
    );
    assert_eq!(split_target("/ui"), ("/ui".to_string(), String::new()));
    assert_eq!(
        fixed_reply(&route("GET", "/gateway/collection/%zz")),
        Some((404, "not a collection name".to_string()))
    );
    assert_eq!(
        fixed_reply(&route("DELETE", "/")),
        Some((405, "only GET, POST and OPTIONS are served".to_string()))
    );
}

#[test]
fn a_write_body_must_be_a_json_object() {
    assert_eq!(
        post_input(&PostPlan::Cir, &Value::Array(vec![Value::Integer(1)])).err(),
        Some((400, "body must be a JSON object".to_string()))
    );
    assert_eq!(
        post_input(&PostPlan::Unknown, &object(&[])).err(),
        Some((404, "unknown gateway path".to_string()))
    );
    assert_eq!(
        post_input(&PostPlan::Revoke, &object(&[("node_id", "")])).err(),
        Some((422, "missing \"node_id\"".to_string()))
    );
    assert_eq!(
        post_input(&PostPlan::Seed, &object(&[])).err(),
        Some((400, "missing \"value\"".to_string()))
    );
    match post_input(&PostPlan::Cir, &object(&[("kind", "card")])) {
        Ok(PostInput::Cir { kind, body }) => {
            assert_eq!(kind, "card");
            assert_eq!(body, Value::Table(vec![]));
        }
        other => panic!("unexpected {other:?}"),
    }
}

#[test]
fn a_trust_write_names_a_level_by_its_label() {
    match post_input(&PostPlan::Trust, &object(&[("who", "alice"), ("level", " mesh\n")])) {
        Ok(PostInput::Trust { who, level }) => {
            assert_eq!(who, "alice");
            assert_eq!(level, TrustLevel::Mesh);
        }
        other => panic!("unexpected {other:?}"),
    }
    assert_eq!(
        post_input(&PostPlan::Trust, &object(&[("who", "alice"), ("level", "friend")])).err(),
        Some((422, "level must be one of: unknown, contact, cache, mesh".to_string()))
    );
    assert_eq!(
        post_input(&PostPlan::Trust, &object(&[("level", "mesh")])).err(),
        Some((422, "missing \"who\"".to_string()))
    );
}

#[test]
fn a_collection_write_names_its_op() {
    let ci = BlobHash::of(b"v1");
    let name = PostPlan::Collection { name: "decks".to_string() };
    let add = object(&[("op", "add"), ("ci", &ci.to_hex()), ("label", ""), ("td", "")]);
    match post_input(&name, &add) {
        Ok(PostInput::Collection { name, edit: Edit::Add { ci: got, label, default_td } }) => {
            assert_eq!(name, "decks");
            assert_eq!(got.hash(), ci);
            assert_eq!(label, None);
            assert!(default_td.is_none());
        }
        other => panic!("unexpected {other:?}"),
    }
    let labelled = object(&[("op", "add"), ("ci", &ci.to_hex()), ("label", "0.1.0")]);
    match post_input(&name, &labelled) {
        Ok(PostInput::Collection { edit: Edit::Add { label, .. }, .. }) => {
            assert_eq!(label, Some("0.1.0".to_string()))
        }
        other => panic!("unexpected {other:?}"),
    }
    assert_eq!(
        post_input(&name, &object(&[("op", "rename")])).err(),
        Some((422, "unknown op \"rename\"".to_string()))
    );
    assert_eq!(
        post_input(&name, &object(&[("op", "remove"), ("ci", "zz")])).err(),
        Some((422, "\"zz\" is not a hash".to_string()))
    );
    assert!(matches!(
        post_input(&name, &object(&[("op", "record"), ("hash", &ci.to_hex())])),
        Ok(PostInput::Collection { edit: Edit::Record { .. }, .. })
    ));
}

#[test]
fn an_attestation_write_is_of_content_or_of_a_relation() {
    let a = BlobHash::of(b"a").to_hex();
    let b = BlobHash::of(b"b").to_hex();
    match post_input(&PostPlan::Attest, &object(&[("ci", &a), ("relation", "printing-of"), ("other", &b)])) {
        Ok(PostInput::AttestRelation { relation, ci, other }) => {
            assert_eq!(relation, "printing-of");
            assert_eq!(ci.hash(), BlobHash::of(b"a"));
            assert_eq!(other.hash(), BlobHash::of(b"b"));
        }
        other => panic!("unexpected {other:?}"),
    }
    assert_eq!(
        post_input(&PostPlan::Attest, &object(&[("ci", &a), ("td", &b)])).err(),
        Some((422, "missing \"blob\"".to_string()))
    );
}

#[test]
fn statistics_count_blobs_and_their_bytes() {
    let blobs = vec![
        BlobInfo { hash: "a".into(), size: 3, kind: "blob".into() },
        BlobInfo { hash: "b".into(), size: 40, kind: "cir".into() },
    ];
    assert_eq!(blob_totals(&blobs), (2, 43));
    assert_eq!(blob_totals(&Vec::new()), (0, 0));
    assert!(writes_enabled(Some("t"), false));
    assert!(writes_enabled(None, true));
    assert!(!writes_enabled(None, false));
}

#[test]
fn a_node_counts_its_group_as_its_own_before_its_node_key() {
    let group = Identity::from_secret([1; 32]).dgid();
    let node = Identity::from_secret([2; 32]).dgid();
    assert_eq!(own_group(Some(group), Some(node)), Some(group));
    assert_eq!(own_group(None, Some(node)), Some(node));
    assert_eq!(own_group(None, None), None);
}

#[test]
fn a_join_reply_must_hand_over_the_invited_group_key() {
    let group = Identity::from_secret([4; 32]);
    let member = Identity::from_secret([5; 32]).dgid();
    let secret = spirit::identity::secret_text(&group);
    let mut trust = Trust::new();
    let refused = accept_join_reply(group.dgid(), false, Some("token expired".into()), None, &vec![], &mut trust);
    assert_eq!(refused.err(), Some("token expired".to_string()));
    let refused = accept_join_reply(group.dgid(), false, None, None, &vec![], &mut trust);
    assert_eq!(refused.err(), Some("the admitter refused".to_string()));
    let other = spirit::identity::secret_text(&Identity::from_secret([6; 32]));
    let wrong = accept_join_reply(group.dgid(), true, None, Some(other), &vec![member], &mut trust);
    assert_eq!(wrong.err(), Some("the group secret does not match the invited dgid".to_string()));
    assert_eq!(trust.level(member), TrustLevel::Unknown);
    let none = accept_join_reply(group.dgid(), true, None, Some("junk".into()), &vec![], &mut trust);
    assert_eq!(none.err(), Some("the admitter sent no usable group secret".to_string()));
    let joined = accept_join_reply(group.dgid(), true, None, Some(secret), &vec![member], &mut trust).unwrap();
    assert_eq!(joined.dgid(), group.dgid());
    assert_eq!(trust.level(group.dgid()), TrustLevel::Mesh);
    assert_eq!(trust.level(member), TrustLevel::Mesh);
}

fn owned_advert(name: &str, manifest: &str, total: u32, held: u32, owner: Option<&str>) -> RefAdvert {
    RefAdvert {
        name: name.into(),
        manifest: manifest.into(),
        total,
        held,
        owner: owner.map(String::from),
    }
}

fn offer(id: &str, adverts: Vec<RefAdvert>, level: TrustLevel, device: Option<&str>) -> PeerOffer {
    PeerOffer { id: id.into(), adverts, level, reachable: true, device: device.map(String::from) }
}

#[test]
fn the_owners_device_then_trust_then_holdings_pick_the_provider() {
    let locals = vec![owned_advert("songs", "m0", 10, 2, Some("dgid:o"))];
    let peers = vec![
        offer("stranger", vec![owned_advert("songs", "m1", 10, 10, Some("dgid:o"))], TrustLevel::Contact, None),
        offer("cache", vec![owned_advert("songs", "m1", 10, 9, Some("dgid:o"))], TrustLevel::Cache, None),
        offer("mesh", vec![owned_advert("songs", "m1", 10, 5, Some("dgid:o"))], TrustLevel::Mesh, None),
        offer("other-owner", vec![owned_advert("songs", "m1", 10, 10, Some("dgid:x"))], TrustLevel::Mesh, None),
    ];
    assert_eq!(best_provider("songs", &locals, &vec![], &peers), Some((2, 0)));
    let mut with_device = peers;
    with_device.push(offer("owner", vec![owned_advert("songs", "m1", 10, 3, Some("dgid:o"))], TrustLevel::Cache, Some("dgid:o")));
    assert_eq!(best_provider("songs", &locals, &vec![], &with_device), Some((4, 0)));
    let behind = vec![offer("mesh", vec![owned_advert("songs", "m0", 10, 1, Some("dgid:o"))], TrustLevel::Mesh, None)];
    assert_eq!(best_provider("songs", &locals, &vec![], &behind), None);
    let sibling = vec![offer("mesh", vec![owned_advert("songs", "m2", 2, 2, Some("dgid:o"))], TrustLevel::Mesh, None)];
    assert_eq!(best_provider("songs", &locals, &vec![], &sibling), Some((0, 0)));
    assert_eq!(best_provider("songs", &locals, &vec!["m2".to_string()], &sibling), None);
}

#[test]
fn an_edit_is_checked_against_the_store() {
    let mut store = MemBlobs::new();
    let cir = spirit::record::Cir::new("card", &Value::Table(vec![])).unwrap();
    let ci = spirit::address::CiHash::from_hash(store.put(&cir.encode().unwrap()).unwrap());
    let blob = store.put(b"plain").unwrap();
    let add = |ci| Edit::Add { ci, label: None, default_td: None };
    assert_eq!(check_edit(&store, "decks", &add(ci)), Ok(()));
    assert_eq!(
        check_edit(&store, "../x", &add(ci)),
        Err("\"../x\" is not a usable collection name".to_string())
    );
    let plain = spirit::address::CiHash::from_hash(blob);
    assert_eq!(check_edit(&store, "decks", &add(plain)), Err(format!("{} is not a CIR", plain.to_string())));
    assert_eq!(
        check_edit(&store, "decks", &Edit::Attest { hash: blob }),
        Err(format!("{} is not an attestation in the store", blob.to_hex()))
    );
    assert_eq!(check_edit(&store, "decks", &Edit::Record { hash: blob }), Ok(()));
    let absent = BlobHash::of(b"absent");
    assert_eq!(
        check_edit(&store, "decks", &Edit::Record { hash: absent }),
        Err(format!("{} is not in the store", absent.to_hex()))
    );
}

#[test]
fn a_gateway_status_resolves_to_its_ticket_or_its_node_id() {
    let id = "ae58ff8833241ac82d6ff7611046ed67b5072d142c588d0063e942d9a75502b6";
    let ticket = "endpointaaxyzticket";
    let full = format!(
        "{{\"node_id\":\"{id}\",\"ticket\":\"{ticket}\",\"dgid\":\"dgid:whatever\",\"peers\":3,\"refs\":[]}}"
    );
    let (t, n) = status_fields(&full).unwrap();
    assert_eq!(t.as_deref(), Some(ticket));
    assert_eq!(n.as_deref(), Some(id));
    assert_eq!(pick_seed(t, true, n, true).unwrap(), ticket);
    let old = format!("{{\"node_id\":\"{id}\",\"peers\":0,\"refs\":[]}}");
    let (t, n) = status_fields(&old).unwrap();
    assert_eq!(t, None);
    assert_eq!(pick_seed(t, false, n, true).unwrap(), id);
    let broken = "{\"node_id\":\"nope\",\"ticket\":\"garbage\"}";
    let (t, n) = status_fields(broken).unwrap();
    assert_eq!((t.as_deref(), n.as_deref()), (Some("garbage"), Some("nope")));
    assert_eq!(
        pick_seed(t, false, n, false).unwrap_err(),
        "the gateway status names no usable ticket or node id"
    );
    let (t, n) = status_fields("{}").unwrap();
    assert_eq!((t.clone(), n.clone()), (None, None));
    assert!(pick_seed(t, true, n, true).is_err());
    assert!(status_fields("not json").is_err());
}

#[test]
fn a_status_member_that_is_not_text_is_absent() {
    let (t, n) = status_fields("{\"ticket\":7,\"node_id\":null}").unwrap();
    assert_eq!((t, n), (None, None));
    assert!(status_fields("[1,2]").unwrap() == (None, None));
}

#[test]
fn a_ref_nobody_holds_is_backfilled_by_the_elected_node_once_settled() {
    let locals = vec![advert("deck", 0, 0)];
    let peers = vec![vec![advert("other", 3, 0)], vec![]];
    let known = vec![("b-node".to_string(), Some(0)), ("a-node".to_string(), Some(DIAL_FAILURE_LIMIT))];
    assert!(missing_everywhere("deck", &locals, &peers));
    assert!(!missing_everywhere("other", &locals, &peers));
    assert!(should_backfill("deck", true, BACKFILL_SETTLE_MS, None, &locals, &peers, "a-me", &known));
    assert!(!should_backfill("deck", false, BACKFILL_SETTLE_MS, None, &locals, &peers, "a-me", &known));
    assert!(!should_backfill("deck", true, BACKFILL_SETTLE_MS - 1, None, &locals, &peers, "a-me", &known));
    assert!(!should_backfill("deck", true, BACKFILL_SETTLE_MS, Some(BACKFILL_RETRY_MS - 1), &locals, &peers, "a-me", &known));
    assert!(should_backfill("deck", true, BACKFILL_SETTLE_MS, Some(BACKFILL_RETRY_MS), &locals, &peers, "a-me", &known));
    assert!(!should_backfill("deck", true, BACKFILL_SETTLE_MS, None, &locals, &peers, "c-me", &known));
    assert!(!should_backfill("other", true, BACKFILL_SETTLE_MS, None, &locals, &peers, "a-me", &known));
}
