use ssp::server::{
    first_present, valid_addr, valid_hash, valid_peer_id, BootstrapReply, BootstrapResponse,
    BootstrapServer, BootstrapServerBuilder, Params, ServerConfig, HEALTH,
};

const SEC: u128 = 1_000_000_000;

fn hash(c: char) -> String {
    c.to_string().repeat(64)
}

fn params(id: &str) -> Params {
    Params { id: id.to_string(), session: None, addr: None }
}

fn with_addr(id: &str, addr: &str) -> Params {
    Params { id: id.to_string(), session: None, addr: Some(addr.to_string()) }
}

fn with_session(id: &str, session: &str) -> Params {
    Params { id: id.to_string(), session: Some(session.to_string()), addr: None }
}

fn found(reply: BootstrapReply) -> (BootstrapResponse, usize) {
    match reply {
        BootstrapReply::Found { response, registered } => (response, registered),
        BootstrapReply::Rejected { status, error } => panic!("{status} {error}"),
    }
}

fn rejected(reply: BootstrapReply) -> (u16, String) {
    match reply {
        BootstrapReply::Rejected { status, error } => (status, error),
        BootstrapReply::Found { .. } => panic!("expected a rejection"),
    }
}

#[test]
fn valid_peer_registration() {
    let mut server = BootstrapServer::new(ServerConfig::default());
    let (response, registered) = found(server.handle_bootstrap(&hash('a'), params("one"), 0));
    assert_eq!(response.session, hash('a'));
    assert!(response.peers.is_empty());
    assert!(response.peer_addrs.is_empty());
    assert_eq!(registered, 1);
    let stats = server.stats();
    assert_eq!((stats.games, stats.peers, stats.requests, stats.rejected), (1, 1, 1, 0));
}

#[test]
fn second_peer_receives_first_peer_with_address() {
    let mut server = BootstrapServer::new(ServerConfig::default());
    found(server.handle_bootstrap(&hash('a'), with_addr("one", "AbC-_9"), 0));
    let (response, registered) = found(server.handle_bootstrap(&hash('a'), params("two"), SEC));
    assert_eq!(response.peers, vec!["one".to_string()]);
    assert_eq!(response.peer_addrs, vec!["AbC-_9".to_string()]);
    assert_eq!(registered, 2);
    let (response, _) = found(server.handle_bootstrap(&hash('a'), params("one"), 2 * SEC));
    assert_eq!(response.peers, vec!["two".to_string()]);
    assert!(response.peer_addrs.is_empty());
    let (response, _) = found(server.handle_bootstrap(&hash('a'), params("three"), 3 * SEC));
    assert_eq!(response.peers, vec!["one".to_string(), "two".to_string()]);
    assert!(response.peer_addrs.is_empty());
}

#[test]
fn peers_without_an_address_are_named_by_identity() {
    let mut server = BootstrapServer::new(ServerConfig::default());
    found(server.handle_bootstrap(&hash('a'), params("one"), 0));
    found(server.handle_bootstrap(&hash('a'), with_addr("two", "addr2"), 0));
    let (response, _) = found(server.handle_bootstrap(&hash('a'), params("three"), 0));
    assert_eq!(response.peers, vec!["one".to_string(), "two".to_string()]);
    assert_eq!(response.peer_addrs, vec!["addr2".to_string()]);
}

#[test]
fn invalid_game_hash_rejected() {
    let mut server = BootstrapServer::new(ServerConfig::default());
    for game in ["", "abc", &"g".repeat(64), &"a".repeat(63), &"a".repeat(65), &"é".repeat(32)] {
        let reply = server.handle_bootstrap(&game.to_string(), params("one"), 0);
        assert_eq!(rejected(reply), (400, "invalid request".to_string()));
    }
    let stats = server.stats();
    assert_eq!((stats.games, stats.requests, stats.rejected), (0, 0, 6));
}

#[test]
fn invalid_peer_id_rejected() {
    let mut server = BootstrapServer::new(ServerConfig::default());
    for id in ["", "a b", "ä", &"a".repeat(129), "a/b", "a+b"] {
        let reply = server.handle_bootstrap(&hash('a'), params(id), 0);
        assert_eq!(rejected(reply), (400, "invalid request".to_string()));
    }
    found(server.handle_bootstrap(&hash('a'), params(&"a".repeat(128)), 0));
}

#[test]
fn invalid_endpoint_addr_rejected() {
    let mut server = BootstrapServer::new(ServerConfig::default());
    for addr in ["", "a=", "a.b", &"a".repeat(8193)] {
        let reply = server.handle_bootstrap(&hash('a'), with_addr("one", addr), 0);
        assert_eq!(rejected(reply), (400, "invalid address".to_string()));
    }
    found(server.handle_bootstrap(&hash('a'), with_addr("one", &"a".repeat(8192)), 0));
}

#[test]
fn peers_expire_after_their_time_to_live() {
    let mut server = BootstrapServer::builder().ttl(10).build();
    found(server.handle_bootstrap(&hash('a'), params("one"), 0));
    let (response, _) = found(server.handle_bootstrap(&hash('a'), params("two"), 10 * SEC - 1));
    assert_eq!(response.peers, vec!["one".to_string()]);
    let (response, registered) = found(server.handle_bootstrap(&hash('a'), params("three"), 10 * SEC));
    assert_eq!(response.peers, vec!["two".to_string()]);
    assert_eq!(registered, 2);
    let (response, _) = found(server.handle_bootstrap(&hash('a'), params("four"), 40 * SEC));
    assert!(response.peers.is_empty());
    assert_eq!(server.stats().peers, 1);
}

#[test]
fn asking_again_renews_a_peer() {
    let mut server = BootstrapServer::builder().ttl(10).build();
    found(server.handle_bootstrap(&hash('a'), params("one"), 0));
    found(server.handle_bootstrap(&hash('a'), with_addr("one", "new"), 8 * SEC));
    let (response, registered) = found(server.handle_bootstrap(&hash('a'), params("two"), 15 * SEC));
    assert_eq!(response.peers, vec!["one".to_string()]);
    assert_eq!(response.peer_addrs, vec!["new".to_string()]);
    assert_eq!(registered, 2);
}

#[test]
fn limit_on_games() {
    let mut server = BootstrapServer::builder().max_games(2).ttl(10).build();
    found(server.handle_bootstrap(&hash('a'), params("one"), 0));
    found(server.handle_bootstrap(&hash('b'), params("two"), 5 * SEC));
    let reply = server.handle_bootstrap(&hash('c'), params("three"), 6 * SEC);
    assert_eq!(rejected(reply), (503, "server full".to_string()));
    let stats = server.stats();
    assert_eq!((stats.games, stats.peers, stats.requests, stats.rejected), (2, 2, 3, 1));
    found(server.handle_bootstrap(&hash('b'), params("four"), 6 * SEC));
    let (response, _) = found(server.handle_bootstrap(&hash('c'), params("three"), 11 * SEC));
    assert_eq!(response.session, hash('c'));
    let stats = server.stats();
    assert_eq!((stats.games, stats.peers), (2, 3));
}

#[test]
fn limit_on_peers_of_a_game() {
    let mut server = BootstrapServer::builder().max_peers(2).build();
    found(server.handle_bootstrap(&hash('a'), params("one"), 0));
    found(server.handle_bootstrap(&hash('a'), params("two"), 0));
    let (response, registered) = found(server.handle_bootstrap(&hash('a'), params("three"), 0));
    assert_eq!(response.peers, vec!["one".to_string(), "two".to_string()]);
    assert_eq!(registered, 2);
    let (response, _) = found(server.handle_bootstrap(&hash('a'), params("one"), 0));
    assert_eq!(response.peers, vec!["two".to_string()]);
    let mut empty = BootstrapServer::builder().max_peers(0).build();
    let (response, registered) = found(empty.handle_bootstrap(&hash('a'), params("one"), 0));
    assert_eq!((response.peers.len(), registered), (0, 0));
    assert_eq!((empty.stats().games, empty.stats().peers), (1, 0));
}

#[test]
fn session_validation_and_persistence() {
    let mut server = BootstrapServer::builder().ttl(10).build();
    let reply = server.handle_bootstrap(&hash('a'), with_session("one", "xyz"), 0);
    assert_eq!(rejected(reply), (400, "invalid session".to_string()));
    let (response, _) =
        found(server.handle_bootstrap(&hash('a'), with_session("one", &hash('5')), 0));
    assert_eq!(response.session, hash('5'));
    let (response, _) = found(server.handle_bootstrap(&hash('a'), params("two"), SEC));
    assert_eq!(response.session, hash('5'));
    let (response, _) = found(server.handle_bootstrap(&hash('b'), params("three"), SEC));
    assert_eq!(response.session, hash('b'));
    let (response, _) = found(server.handle_bootstrap(&hash('a'), params("four"), 30 * SEC));
    assert_eq!(response.session, hash('a'));
}

#[test]
fn peer_moving_between_games_leaves_the_old_one() {
    let mut server = BootstrapServer::new(ServerConfig::default());
    found(server.handle_bootstrap(&hash('a'), with_session("one", &hash('5')), 0));
    found(server.handle_bootstrap(&hash('a'), params("two"), 0));
    let (response, _) = found(server.handle_bootstrap(&hash('b'), params("one"), 0));
    assert!(response.peers.is_empty());
    let (response, _) = found(server.handle_bootstrap(&hash('a'), params("three"), 0));
    assert_eq!(response.peers, vec!["two".to_string()]);
    let stats = server.stats();
    assert_eq!((stats.games, stats.peers), (2, 3));
    found(server.handle_bootstrap(&hash('b'), params("two"), 0));
    found(server.handle_bootstrap(&hash('b'), params("three"), 0));
    let stats = server.stats();
    assert_eq!((stats.games, stats.peers), (1, 3));
    let (response, _) = found(server.handle_bootstrap(&hash('a'), params("four"), 0));
    assert_eq!(response.session, hash('a'));
}

#[test]
fn clock_running_backwards_keeps_peers() {
    let mut server = BootstrapServer::builder().ttl(10).build();
    found(server.handle_bootstrap(&hash('a'), params("one"), 100 * SEC));
    let (response, _) = found(server.handle_bootstrap(&hash('a'), params("two"), 5 * SEC));
    assert_eq!(response.peers, vec!["one".to_string()]);
}

#[test]
fn many_games_come_and_go() {
    let mut server = BootstrapServer::builder().ttl(10).max_games(16).build();
    let names: Vec<String> = "0123456789abcdef".chars().map(hash).collect();
    for (i, name) in names.iter().enumerate() {
        found(server.handle_bootstrap(name, params(&format!("p{i}")), i as u128 * SEC));
    }
    assert_eq!(server.stats().games, 16);
    let extra = "ab".repeat(32);
    found(server.handle_bootstrap(&extra, params("extra"), 20 * SEC));
    let stats = server.stats();
    assert_eq!((stats.games, stats.peers), (6, 6));
    let (response, _) = found(server.handle_bootstrap(&names[15], params("late"), 20 * SEC));
    assert_eq!(response.peers, vec!["p15".to_string()]);
}

#[test]
fn texts_that_the_server_takes() {
    assert!(valid_hash(&"0123456789abcdefABCDEF".repeat(3)[..64]));
    assert!(!valid_hash(&hash('g')));
    assert!(valid_peer_id("aZ09-_"));
    assert!(!valid_peer_id("a~"));
    assert!(valid_addr("aZ09-_"));
    assert!(!valid_addr("a\u{0}"));
}

#[test]
fn server_defaults_and_builder() {
    let config = ServerConfig::default();
    assert_eq!(config.socket_addr(), ([0, 0, 0, 0], 5000));
    assert_eq!((config.max_peers, config.max_games, config.ttl), (20, 100_000, 480));
    assert!(!config.verbose);
    assert_eq!(config.peer_ttl(), 480 * SEC);
    let built = BootstrapServerBuilder::default()
        .config(config)
        .port(1)
        .bind([127, 0, 0, 1])
        .max_peers(2)
        .max_games(3)
        .ttl(4)
        .verbose(true)
        .build()
        .config();
    assert_eq!(built.socket_addr(), ([127, 0, 0, 1], 1));
    assert_eq!((built.max_peers, built.max_games, built.ttl), (2, 3, 4));
    assert!(built.verbose);
    assert_eq!(HEALTH, "ok");
}

#[test]
fn first_setting_wins() {
    assert_eq!(first_present(&vec![None, Some(2u16), Some(3)], 9), 2);
    assert_eq!(first_present(&vec![None, None], 9u16), 9);
    assert_eq!(first_present(&Vec::new(), 9u16), 9);
}

#[test]
fn no_game_is_left_without_peers() {
    let mut config = ServerConfig::default();
    config.max_peers = 1;
    config.ttl = 10;
    let mut server = BootstrapServer::new(config);
    for (game, id, at) in [('a', "one", 0), ('a', "two", 1), ('b', "one", 2), ('c', "two", 30)] {
        found(server.handle_bootstrap(&hash(game), params(id), at * SEC));
        let stats = server.stats();
        assert!(stats.games <= stats.peers);
    }
}
