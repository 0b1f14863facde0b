use base64::engine::general_purpose::URL_SAFE_NO_PAD;
use base64::Engine;
use ssp::discovery::{
    announce_url, announcement, collect_peers, decode_endpoint_addr, decode_nodeid_response,
    encode_endpoint_addr, get_hashed_seed, is_discovered, node_id_from_decoded, publisher_counts,
    refresh_candidates, scan_minutes, seed_topic, DhtRecordContent, DialAction, DialEvent,
    DialPhase, Dialer, DiscoverySetup, PeerAddr, PeerSet, SetupAction, SetupEvent, SetupPhase,
};
use ssp::game::DiscoveryMode;
use ssp::server::{
    valid_addr, valid_hash, valid_peer_id, BootstrapReply, BootstrapResponse, BootstrapServer,
    Params, ServerConfig,
};

const TOPIC_HASH: &str = "2ac81151f37237b53baaa85e4ea38d2050d517ebc66980542f586fa7a8640c67";

fn public(n: u8) -> [u8; 32] {
    *iroh::SecretKey::from_bytes(&[n; 32]).public().as_bytes()
}

fn endpoint(n: u8) -> iroh::EndpointId {
    iroh::EndpointId::from_bytes(&public(n)).unwrap()
}

fn wire(n: u8, reachable: bool) -> Vec<u8> {
    let mut addr = iroh::EndpointAddr::new(endpoint(n));
    if reachable {
        addr = addr.with_ip_addr("127.0.0.1:4000".parse().unwrap());
    }
    bincode::serialize(&addr).unwrap()
}

fn response(session: &str, peers: &[String], addrs: &[String]) -> BootstrapResponse {
    BootstrapResponse {
        session: session.to_string(),
        peers: peers.to_vec(),
        peer_addrs: addrs.to_vec(),
    }
}

fn id_text(n: u8) -> String {
    URL_SAFE_NO_PAD.encode(public(n))
}

fn addr_text(n: u8, reachable: bool) -> String {
    URL_SAFE_NO_PAD.encode(wire(n, reachable))
}

#[test]
fn topics_and_their_hashes() {
    assert_eq!(seed_topic(0x0102_0304), "01020304");
    assert_eq!(seed_topic(0), "00000000");
    assert_eq!(seed_topic(u32::MAX), "ffffffff");
    assert_eq!(seed_topic(0xab), format!("{:08x}", 0xab));
    assert_eq!(hex::encode(get_hashed_seed("01020304")), TOPIC_HASH);
    let key = blake3::hash(b"ssp-topic");
    let expected = blake3::keyed_hash(key.as_bytes(), "tøpic".as_bytes());
    assert_eq!(get_hashed_seed("tøpic"), *expected.as_bytes());
}

#[test]
fn announce_urls() {
    let id = public(1);
    let plain = format!("http://x/games/{TOPIC_HASH}?id={}", id_text(1));
    assert_eq!(announce_url("http://x", "01020304", &id, &None, &None), plain);
    let full = announce_url("http://x", "01020304", &id, &None, &Some(vec![1, 2, 3, 255]));
    assert_eq!(full, format!("{plain}&addr=AQID_w"));
    let again = announce_url("http://x", "01020304", &id, &Some([0xab; 32]), &Some(vec![1]));
    assert_eq!(again, format!("{plain}&session={}&addr=AQ", "ab".repeat(32)));
}

#[test]
fn announcements_are_taken_by_the_server_and_read_by_peers() {
    let id = public(1);
    let parts = announcement("01020304", &id, &Some([7; 32]), &Some(wire(1, true)));
    assert!(valid_hash(&parts.game));
    assert!(valid_peer_id(&parts.id));
    assert!(valid_hash(&parts.session.unwrap()));
    let addr = parts.addr.unwrap();
    assert!(valid_addr(&addr));
    assert_eq!(decode_nodeid_response(&parts.id), Ok(id));
    let decoded = decode_endpoint_addr(&addr).unwrap();
    assert_eq!(decoded.id, id);
    assert_eq!(decoded.wire, Some(wire(1, true)));
    assert!(decoded.known);
    let long = announcement("t", &id, &None, &Some(vec![0; 6144]));
    assert!(valid_addr(&long.addr.unwrap()));
    let longer = announcement("t", &id, &None, &Some(vec![0; 6145]));
    assert!(!valid_addr(&longer.addr.unwrap()));
}

#[test]
fn identities_as_text() {
    assert_eq!(decode_nodeid_response(&id_text(3)), Ok(public(3)));
    for text in ["***", "A", "AQ=="] {
        let error = URL_SAFE_NO_PAD.decode(text).unwrap_err();
        let expected = format!("Base64 decode failed: {error}");
        assert_eq!(decode_nodeid_response(text), Err(expected));
    }
    assert_eq!(
        decode_nodeid_response("***").unwrap_err(),
        "Base64 decode failed: Invalid symbol 42, offset 0."
    );
    assert_eq!(decode_nodeid_response("AQID").unwrap_err(), "Invalid node ID length");
    assert_eq!(decode_nodeid_response("").unwrap_err(), "Invalid node ID length");
    assert!(decode_nodeid_response(&format!("{}=", id_text(3))).is_err());
    assert_eq!(node_id_from_decoded(Ok(vec![7; 32])), Ok([7; 32]));
    assert_eq!(node_id_from_decoded(Ok(vec![7; 33])).unwrap_err(), "Invalid node ID length");
    assert_eq!(
        node_id_from_decoded(Err("no".to_string())).unwrap_err(),
        "Base64 decode failed: no"
    );
}

#[test]
fn addresses_as_text() {
    assert_eq!(encode_endpoint_addr(&None), None);
    assert_eq!(encode_endpoint_addr(&Some(vec![255, 254])), Some("__4".to_string()));
    assert!(decode_endpoint_addr("").is_none());
    assert!(decode_endpoint_addr("AQID").is_none());
    let bare = decode_endpoint_addr(&addr_text(2, false)).unwrap();
    assert!(!bare.known);
    assert!(bare.is_empty());
    let known = decode_endpoint_addr(&addr_text(2, true)).unwrap();
    assert!(known.known);
    assert!(!known.is_empty());
}

#[test]
fn relay_stands_in_for_a_missing_address() {
    let relay = Some("http://relay".to_string());
    let addr = PeerAddr::new(public(1)).or_relay(&relay);
    assert_eq!(addr.relay, relay);
    assert!(!addr.is_empty());
    assert!(PeerAddr::new(public(1)).or_relay(&None).is_empty());
    let known = decode_endpoint_addr(&addr_text(2, true)).unwrap().or_relay(&relay);
    assert_eq!(known.relay, None);
    let other = PeerAddr::new(public(1)).with_relay_url("http://own".to_string()).or_relay(&relay);
    assert_eq!(other.relay, Some("http://own".to_string()));
}

#[test]
fn peers_named_by_the_server_are_collected_once() {
    let answer = response(
        "",
        &[id_text(2), id_text(3), id_text(9), id_text(3), "***".to_string(), "AQ".to_string()],
        &[addr_text(2, true), addr_text(9, true), "junk".to_string()],
    );
    let peers = collect_peers(&answer, &public(9));
    let ids: Vec<[u8; 32]> = peers.iter().map(|p| p.id).collect();
    assert_eq!(ids, vec![public(2), public(3)]);
    assert_eq!(peers[0].wire, Some(wire(2, true)));
    assert!(peers[1].is_empty());
}

#[test]
fn invalid_identities_are_not_collected() {
    let mut bad = [0u8; 32];
    while iroh::EndpointId::from_bytes(&bad).is_ok() {
        bad[0] += 1;
    }
    let answer = response("", &[URL_SAFE_NO_PAD.encode(bad)], &[]);
    assert!(collect_peers(&answer, &public(9)).is_empty());
}

#[test]
fn peers_meet_through_the_server() {
    let mut server = BootstrapServer::new(ServerConfig::default());
    let a = announcement("01020304", &public(1), &None, &Some(wire(1, true)));
    server.handle_bootstrap(&a.game, Params { id: a.id, session: a.session, addr: a.addr }, 0);
    let b = announcement("01020304", &public(2), &None, &None);
    let params = Params { id: b.id, session: b.session, addr: b.addr };
    let answer = match server.handle_bootstrap(&b.game, params, 1) {
        BootstrapReply::Found { response, .. } => response,
        BootstrapReply::Rejected { error, .. } => panic!("{error}"),
    };
    assert_eq!(answer.session, TOPIC_HASH);
    let peers = collect_peers(&answer, &public(2));
    assert_eq!(peers.len(), 1);
    assert_eq!(peers[0].id, public(1));
    assert_eq!(peers[0].wire, Some(wire(1, true)));
}

fn joined_session(action: &SetupAction) -> Option<[u8; 32]> {
    match action {
        SetupAction::Join(hash) => Some(*hash),
        _ => None,
    }
}

#[test]
fn setup_with_an_answering_server() {
    let me = public(9);
    let (mut setup, action) =
        DiscoverySetup::start(DiscoveryMode::BootstrapDhtFallback, "01020304", me);
    assert!(matches!(action, SetupAction::AskBootstrap));
    assert_eq!(setup.phase(), SetupPhase::Asking);
    assert_eq!(hex::encode(setup.session()), TOPIC_HASH);
    assert!(setup.wants_bootstrap());
    let answer = response(&"cd".repeat(32), &[id_text(2)], &[]);
    let action = setup.next_step(SetupEvent::BootstrapAnswered(answer));
    assert_eq!(joined_session(&action), Some([0xcd; 32]));
    assert_eq!(setup.session(), [0xcd; 32]);
    let relay = Some("http://relay".to_string());
    let candidates = setup.candidates(&relay);
    assert_eq!(candidates.len(), 1);
    assert_eq!(candidates[0].relay, relay);
    assert_eq!(setup.record().session_seed, [0xcd; 32]);
    assert_eq!(setup.record().id, me);
    assert!(matches!(setup.next_step(SetupEvent::Joined), SetupAction::Refresh));
    assert_eq!(setup.phase(), SetupPhase::Settled);
    assert!(setup.keeps_dht());
}

#[test]
fn odd_sessions_are_not_adopted() {
    for session in ["", "cd", "zz", &"cd".repeat(31), &"cd".repeat(33), &"c".repeat(63)] {
        let (mut setup, _) =
            DiscoverySetup::start(DiscoveryMode::BootstrapOnly, "01020304", public(9));
        let answer = response(session, &[], &[]);
        let action = setup.next_step(SetupEvent::BootstrapAnswered(answer));
        assert_eq!(joined_session(&action).map(hex::encode), Some(TOPIC_HASH.to_string()));
        assert!(matches!(setup.next_step(SetupEvent::Joined), SetupAction::Refresh));
        assert!(!setup.keeps_dht());
    }
    let (mut setup, _) = DiscoverySetup::start(DiscoveryMode::BootstrapOnly, "01020304", public(9));
    let answer = response(&"CD".repeat(32), &[], &[]);
    let action = setup.next_step(SetupEvent::BootstrapAnswered(answer));
    assert_eq!(joined_session(&action), Some([0xcd; 32]));
}

#[test]
fn session_is_joined_before_the_hash_table_is_searched() {
    let me = public(9);
    for answer in [None, Some(response(TOPIC_HASH, &[], &[]))] {
        let (mut setup, _) =
            DiscoverySetup::start(DiscoveryMode::BootstrapDhtFallback, "01020304", me);
        let action = match answer {
            Some(answer) => setup.next_step(SetupEvent::BootstrapAnswered(answer)),
            None => setup.next_step(SetupEvent::BootstrapFailed),
        };
        assert_eq!(joined_session(&action).map(hex::encode), Some(TOPIC_HASH.to_string()));
        match setup.next_step(SetupEvent::Joined) {
            SetupAction::SearchDht(record) => {
                assert_eq!(record.id, me);
                assert_eq!(hex::encode(record.session_seed), TOPIC_HASH);
            }
            other => panic!("unexpected {other:?}"),
        }
    }
}

#[test]
fn setup_through_the_hash_table() {
    let me = public(9);
    let mut bad = [0u8; 32];
    while iroh::EndpointId::from_bytes(&bad).is_ok() {
        bad[0] += 1;
    }
    let nobody = vec![
        DhtRecordContent { id: me, session_seed: [1; 32] },
        DhtRecordContent { id: bad, session_seed: [2; 32] },
    ];
    let (mut setup, action) = DiscoverySetup::start(DiscoveryMode::DhtOnly, "01020304", me);
    assert!(!setup.wants_bootstrap());
    assert_eq!(joined_session(&action).map(hex::encode), Some(TOPIC_HASH.to_string()));
    assert!(matches!(setup.next_step(SetupEvent::Joined), SetupAction::SearchDht(_)));
    assert!(matches!(setup.next_step(SetupEvent::DhtSearched(nobody)), SetupAction::Refresh));
    assert_eq!(hex::encode(setup.session()), TOPIC_HASH);
    assert!(setup.candidates(&None).is_empty());

    let (mut setup, _) = DiscoverySetup::start(DiscoveryMode::DhtOnly, "01020304", me);
    setup.next_step(SetupEvent::Joined);
    let action = setup.next_step(SetupEvent::DhtSearched(vec![
        DhtRecordContent { id: public(3), session_seed: [3; 32] },
        DhtRecordContent { id: public(4), session_seed: [4; 32] },
    ]));
    assert_eq!(joined_session(&action), Some([3; 32]));
    assert_eq!(setup.phase(), SetupPhase::Switching);
    assert_eq!(setup.session(), [3; 32]);
    let candidates = setup.candidates(&Some("http://relay".to_string()));
    assert_eq!(candidates.iter().map(|c| c.id).collect::<Vec<_>>(), vec![public(3), public(4)]);
    assert!(candidates.iter().all(|c| c.is_empty()));
    assert!(matches!(setup.next_step(SetupEvent::Joined), SetupAction::Refresh));

    let (mut setup, _) = DiscoverySetup::start(DiscoveryMode::DhtOnly, "01020304", me);
    setup.next_step(SetupEvent::Joined);
    let same = DhtRecordContent { id: public(3), session_seed: setup.session() };
    assert!(matches!(setup.next_step(SetupEvent::DhtSearched(vec![same])), SetupAction::Refresh));
    assert_eq!(setup.candidates(&None).len(), 1);
}

#[test]
fn minutes_to_scan() {
    assert_eq!(scan_minutes(100), vec![100, 99, 98, 97, 96, 95, 94, 93, 92]);
    assert_eq!(scan_minutes(3), vec![3, 2, 1, 0]);
    assert_eq!(scan_minutes(0), vec![0]);
}

#[test]
fn sets_of_peers() {
    let mut set = PeerSet::new();
    assert!(!set.contains(&public(1)));
    assert!(set.insert(public(1)));
    assert!(!set.insert(public(1)));
    assert!(set.insert(public(2)));
    set.remove(&public(1));
    assert!(!set.contains(&public(1)));
    assert!(set.contains(&public(2)));
    assert!(set.insert(public(1)));
}

#[test]
fn refreshed_candidates_leave_out_failed_peers() {
    let mut failed = PeerSet::new();
    failed.insert(public(2));
    let peers = vec![PeerAddr::new(public(1)), PeerAddr::new(public(2)), PeerAddr::new(public(3))];
    let relay = Some("http://relay".to_string());
    let candidates = refresh_candidates(&peers, &failed, &relay);
    assert_eq!(candidates.iter().map(|c| c.id).collect::<Vec<_>>(), vec![public(1), public(3)]);
    assert!(candidates.iter().all(|c| c.relay == relay));
    assert!(publisher_counts(&public(1), &public(9), &failed));
    assert!(!publisher_counts(&public(2), &public(9), &failed));
    assert!(!publisher_counts(&public(9), &public(9), &failed));
}

fn handshake_relay(action: &DialAction) -> Option<Option<String>> {
    match action {
        DialAction::Handshake(addr) => Some(addr.relay.clone()),
        _ => None,
    }
}

#[test]
fn dialling_succeeds_at_once() {
    let relay = Some("http://relay".to_string());
    let (mut dialer, action) = Dialer::start(PeerAddr::new(public(1)), &relay, Vec::new());
    assert_eq!(handshake_relay(&action), Some(relay));
    assert_eq!(dialer.peer(), public(1));
    assert!(matches!(dialer.step(DialEvent::HandshakeDone), DialAction::HandToGossip));
    assert!(matches!(dialer.step(DialEvent::GossipDone), DialAction::Connected));
    assert_eq!(dialer.phase(), DialPhase::Finished);
}

#[test]
fn dialling_without_a_relay_gives_up() {
    let (mut dialer, action) =
        Dialer::start(PeerAddr::new(public(1)), &None, vec!["http://n0".to_string()]);
    assert_eq!(handshake_relay(&action), Some(None));
    assert!(matches!(dialer.step(DialEvent::HandshakeFailed), DialAction::GiveUp));
    assert_eq!(dialer.phase(), DialPhase::Finished);
}

#[test]
fn dialling_goes_through_the_fallback_relays() {
    let relay = Some("http://relay".to_string());
    let fallbacks = vec!["http://n0".to_string(), "http://n1".to_string()];
    let (mut dialer, _) = Dialer::start(PeerAddr::new(public(1)), &relay, fallbacks.clone());
    let action = dialer.step(DialEvent::HandshakeFailed);
    assert_eq!(handshake_relay(&action), Some(Some("http://n0".to_string())));
    assert!(matches!(dialer.step(DialEvent::HandshakeDone), DialAction::HandToGossip));
    let action = dialer.step(DialEvent::GossipFailed);
    assert_eq!(handshake_relay(&action), Some(Some("http://n1".to_string())));
    assert!(matches!(dialer.step(DialEvent::HandshakeFailed), DialAction::GiveUp));
    let (mut dialer, _) = Dialer::start(PeerAddr::new(public(1)), &relay, fallbacks);
    dialer.step(DialEvent::HandshakeDone);
    assert!(matches!(dialer.step(DialEvent::GossipFailed), DialAction::GiveUp));
}

#[test]
fn discovered_needs_handshake_and_gossip() {
    assert!(is_discovered(true, true));
    assert!(!is_discovered(true, false));
    assert!(!is_discovered(false, true));
    assert!(!is_discovered(false, false));
}
