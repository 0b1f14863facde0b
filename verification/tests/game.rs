use ssp::dolphin::{DolphinEvent, GameMeta};
use ssp::game::{
    first_game, ConnectionState, DiscoveryMode, NetworkProfile, Session, SessionBuilder,
    SessionError, SessionState, TimeoutConfig,
};
use ssp::handshake::ParamRange;
use ssp::msg::Msg;

#[test]
fn builder_defaults() {
    let b = SessionBuilder::default();
    assert!(b.handshake_config.encryption_enabled);
    assert!(b.handshake_config.accept_encrypted);
    assert!(!b.handshake_config.accept_unencrypted);
    assert_eq!(b.handshake_config.rollover, ParamRange { min: 60, preferred: 120, max: 240 });
    assert_eq!(b.handshake_config.offset, ParamRange { min: 30, preferred: 60, max: 120 });
    assert_eq!(b.handshake_config.slp_version_min, [0, 0, 0]);
    assert_eq!(b.handshake_config.slp_version_max, [255, 255, 255]);
    assert_eq!(b.handshake_config.ssp_version_min, [0, 0, 0]);
    assert_eq!(b.handshake_config.ssp_version_max, [0, 1, 0]);
    assert_eq!(b.discovery_mode, DiscoveryMode::BootstrapDhtFallback);
    assert_eq!(b.timeouts, TimeoutConfig::default());
    assert_eq!(b.max_packet_length, 32768);
    let plan = b.plan();
    assert_eq!(plan.bootstrap_url, "http://slippi-ssp.net:11008");
    assert_eq!(plan.relay_url, "http://slippi-ssp.net:11015");
    assert_eq!((plan.dolphin_host.as_str(), plan.dolphin_port), ("127.0.0.1", 51441));
    assert_eq!(plan.crypter, Some((120, 60)));
}

#[test]
fn builder_settings() {
    let timeouts = TimeoutConfig { newgame_match_ms: 1, handshake_secs: 2, http_bootstrap_ms: 3 };
    let plan = SessionBuilder::new()
        .set_dolphin_host("10.0.0.1")
        .set_dolphin_port(7)
        .set_encryption(false)
        .set_bootstrap_url("http://127.0.0.1:5000///")
        .set_relay_url("http://127.0.0.1:3340/")
        .set_discovery_mode(DiscoveryMode::DhtOnly)
        .set_timeouts(timeouts)
        .set_max_packet_length(99)
        .set_slp_version_filter([1, 2, 3], [4, 5, 6])
        .set_ssp_version_range([0, 0, 1], [0, 2, 0])
        .set_rollover_range(10, 5, 20)
        .set_offset_range(10, 25, 20)
        .plan();
    assert_eq!((plan.dolphin_host.as_str(), plan.dolphin_port), ("10.0.0.1", 7));
    assert_eq!(plan.bootstrap_url, "http://127.0.0.1:5000");
    assert_eq!(plan.relay_url, "http://127.0.0.1:3340");
    assert_eq!(plan.discovery_mode, DiscoveryMode::DhtOnly);
    assert_eq!(plan.timeouts, timeouts);
    assert_eq!(plan.max_packet_length, 99);
    assert_eq!(plan.handshake_config.slp_version_min, [1, 2, 3]);
    assert_eq!(plan.handshake_config.slp_version_max, [4, 5, 6]);
    assert_eq!(plan.handshake_config.ssp_version_min, [0, 0, 1]);
    assert_eq!(plan.handshake_config.ssp_version_max, [0, 2, 0]);
    assert_eq!(plan.handshake_config.rollover, ParamRange { min: 10, preferred: 10, max: 20 });
    assert_eq!(plan.handshake_config.offset, ParamRange { min: 10, preferred: 20, max: 20 });
    assert!(!plan.encryption_enabled);
    assert!(!plan.handshake_config.encryption_enabled);
    assert!(!plan.handshake_config.accept_encrypted);
    assert!(plan.handshake_config.accept_unencrypted);
    assert_eq!(plan.crypter, None);
}

#[test]
fn fixed_key_rotation() {
    let plan = SessionBuilder::new().set_key_rotation(7, 3).plan();
    assert_eq!(plan.crypter, Some((7, 3)));
    assert_eq!(plan.handshake_config.rollover, ParamRange { min: 7, preferred: 7, max: 7 });
    assert_eq!(plan.handshake_config.offset, ParamRange { min: 3, preferred: 3, max: 3 });
}

#[test]
fn urls_lose_only_slashes_at_the_end() {
    for (given, kept) in [("", ""), ("///", ""), ("http://é/", "http://é"), ("a/b", "a/b")] {
        let b = SessionBuilder::new().set_bootstrap_url(given);
        assert_eq!(b.bootstrap_url.unwrap(), kept);
    }
}

#[test]
fn timeouts_of_the_profiles() {
    let of = |p| TimeoutConfig::from(p);
    let fast = of(NetworkProfile::Aggressive);
    assert_eq!((fast.newgame_match_ms, fast.handshake_secs, fast.http_bootstrap_ms), (500, 2, 1000));
    let usual = of(NetworkProfile::default());
    assert_eq!(
        (usual.newgame_match_ms, usual.handshake_secs, usual.http_bootstrap_ms),
        (2000, 8, 4000)
    );
    let slow = SessionBuilder::new().set_network_profile(NetworkProfile::Resilient).timeouts;
    assert_eq!((slow.newgame_match_ms, slow.handshake_secs, slow.http_bootstrap_ms), (4000, 16, 8000));
}

#[test]
fn connection_states_as_numbers() {
    assert_eq!(ConnectionState::from_u8(0), ConnectionState::Discovering);
    assert_eq!(ConnectionState::from_u8(1), ConnectionState::Discovered);
    assert_eq!(ConnectionState::from_u8(2), ConnectionState::Discovering);
    assert_eq!(ConnectionState::Discovering.as_u8(), 0);
    assert_eq!(ConnectionState::Discovered.as_u8(), 1);
}

#[test]
fn session_queues() {
    let mut session = Session::new();
    assert_eq!(session.state(), SessionState::InGame);
    assert!(session.in_game());
    assert_eq!(session.connection_state(), ConnectionState::Discovering);
    assert!(!session.peer_discovered());
    assert!(!session.has_outgoing());
    assert!(session.send(b"a".to_vec()));
    assert!(session.send(b"b".to_vec()));
    assert!(session.has_outgoing());
    assert!(session.try_recv().unwrap().is_none());
    session.deliver(Msg::new(vec![1], [0; 32], 5));
    session.deliver(Msg::new(vec![2], [0; 32], 6));
    session.close();
    assert_eq!(session.try_recv().unwrap().unwrap().data, vec![1]);
    assert_eq!(session.try_recv().unwrap().unwrap().data, vec![2]);
    assert_eq!(session.try_recv().unwrap_err(), SessionError::Disconnected);
    assert_eq!(SessionError::Disconnected.message(), "Session has been disconnected");
}

#[test]
fn encryption_policies() {
    let both = SessionBuilder::new().set_encryption_acceptance(true, true).plan();
    assert!(both.encryption_enabled);
    assert!(both.handshake_config.accept_encrypted && both.handshake_config.accept_unencrypted);
    assert_eq!(both.crypter, Some((120, 60)));
    let open = SessionBuilder::new().set_encryption_acceptance(false, true).plan();
    assert!(!open.encryption_enabled);
    assert!(!open.handshake_config.accept_encrypted && open.handshake_config.accept_unencrypted);
    assert_eq!(open.crypter, None);
    let strict = SessionBuilder::new().set_encryption(false).set_encryption(true).plan();
    assert_eq!(strict.handshake_config, SessionBuilder::new().handshake_config);
}

#[test]
fn peers_are_found_by_handshake_and_gossip_and_for_good() {
    let mut session = Session::new();
    for (connected, joined) in [(false, false), (true, false), (false, true)] {
        session.update_connection(connected, joined);
        assert_eq!(session.connection_state(), ConnectionState::Discovering);
    }
    session.update_connection(true, true);
    assert_eq!(session.connection_state(), ConnectionState::Discovered);
    session.update_connection(false, false);
    assert!(session.peer_discovered());
    assert!(session.in_game());
}

#[test]
fn a_session_begins_with_the_first_game() {
    let mut meta = GameMeta::new();
    meta.seed = 77;
    assert!(first_game(DolphinEvent::GameEnd).is_none());
    assert!(first_game(DolphinEvent::Disconnected).is_none());
    assert_eq!(first_game(DolphinEvent::NewGame(meta)).unwrap().seed, 77);
}
