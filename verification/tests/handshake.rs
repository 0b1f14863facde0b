use ssp::game::SessionBuilder;
use ssp::handshake::{
    accept_is_valid, HandshakeAccept, HandshakeConfig, HandshakeOffer, HandshakeReject,
    HandshakeResponse, HandshakeState, ParamRange, SSP_VERSION,
};

fn config() -> HandshakeConfig {
    SessionBuilder::new().handshake_config
}

fn state(config: HandshakeConfig) -> HandshakeState {
    HandshakeState::new(config, [3, 19, 0], SSP_VERSION)
}

fn offer(config: HandshakeConfig) -> HandshakeOffer {
    state(config).make_offer([3, 19, 0], SSP_VERSION)
}

#[test]
fn ranges_clamp_their_preference() {
    assert_eq!(ParamRange::new(1, 5, 10), ParamRange { min: 1, preferred: 5, max: 10 });
    assert_eq!(ParamRange::new(6, 5, 10).preferred, 6);
    assert_eq!(ParamRange::new(1, 15, 10).preferred, 10);
}

#[test]
fn common_part_of_ranges() {
    let a = ParamRange::new(60, 120, 240);
    let b = ParamRange::new(100, 110, 300);
    assert_eq!(a.intersect(&b), Some(ParamRange { min: 100, preferred: 110, max: 240 }));
    assert_eq!(b.intersect(&a), a.intersect(&b));
    let c = ParamRange::new(200, 220, 300);
    assert_eq!(a.intersect(&c), Some(ParamRange { min: 200, preferred: 200, max: 240 }));
    assert_eq!(a.intersect(&ParamRange::new(241, 250, 300)), None);
    assert_eq!(
        a.intersect(&ParamRange::new(240, 250, 300)),
        Some(ParamRange { min: 240, preferred: 240, max: 240 })
    );
}

#[test]
fn default_peers_agree() {
    let mut host = state(config());
    let mut joiner = state(config());
    let offer = joiner.make_offer([3, 19, 0], SSP_VERSION);
    let (response, changed) = host.respond(offer);
    assert_eq!(changed, None);
    joiner.apply_response(&offer, response).unwrap();
    assert_eq!(joiner.config.rollover, host.group_rollover);
    assert_eq!(joiner.config.offset, host.group_offset);
}

#[test]
fn narrowing_reconfigures_both_sides() {
    let mut host = state(config());
    let mut narrow = config();
    narrow.rollover = ParamRange::new(60, 90, 100);
    narrow.offset = ParamRange::new(40, 50, 200);
    let mut joiner = state(narrow);
    let offer = joiner.make_offer([3, 19, 0], SSP_VERSION);
    let (response, changed) = host.respond(offer);
    assert_eq!(changed, Some((90, 50)));
    match &response {
        HandshakeResponse::Accept(accept) => {
            assert_eq!(accept.rollover, ParamRange { min: 60, preferred: 90, max: 100 });
            assert_eq!(accept.offset, ParamRange { min: 40, preferred: 50, max: 120 });
        }
        HandshakeResponse::Reject(r) => panic!("{}", r.reason),
    }
    joiner.apply_response(&offer, response).unwrap();
    assert_eq!(joiner.config.rollover, host.group_rollover);
    assert_eq!(joiner.config.offset, host.group_offset);
    assert_eq!(host.config.rollover, config().rollover);
    let mut third = config();
    third.rollover = ParamRange::new(101, 120, 240);
    let reason = host.evaluate_offer(self::offer(third)).unwrap_err();
    assert_eq!(
        reason,
        "rollover range [101, 240] does not overlap group window [60, 100]"
    );
    let mut fourth = config();
    fourth.offset = ParamRange::new(121, 130, 140);
    let reason = host.evaluate_offer(self::offer(fourth)).unwrap_err();
    assert_eq!(reason, "offset range [121, 140] does not overlap group window [40, 120]");
    assert_eq!(host.group_rollover, ParamRange { min: 60, preferred: 90, max: 100 });
}

#[test]
fn own_ssp_version_outside_the_offer() {
    let mut theirs = config();
    theirs.ssp_version_min = [0, 2, 0];
    theirs.ssp_version_max = [0, 3, 0];
    let reason = state(config()).evaluate_offer(offer(theirs)).unwrap_err();
    assert_eq!(
        reason,
        "Your SSP version 0.1.0 outside peer's accepted range [0.2.0, 0.3.0]"
    );
}

#[test]
fn offered_ssp_version_outside_the_range() {
    let offer = state(config()).make_offer([3, 19, 0], [0, 1, 1]);
    let reason = state(config()).evaluate_offer(offer).unwrap_err();
    assert_eq!(
        reason,
        "Peer SSP version 0.1.1 outside your accepted range [0.0.0, 0.1.0]"
    );
}

#[test]
fn offered_slp_version_outside_the_range() {
    let mut ours = config();
    ours.slp_version_min = [3, 20, 0];
    let reason = state(ours).evaluate_offer(offer(config())).unwrap_err();
    assert_eq!(
        reason,
        "Peer SLP version 3.19.0 outside your accepted range [3.20.0, 255.255.255]"
    );
}

#[test]
fn own_slp_version_outside_the_offer() {
    let mut theirs = config();
    theirs.slp_version_max = [3, 18, 255];
    let mut host = state(config());
    let (response, changed) = host.respond(offer(theirs));
    assert_eq!(changed, None);
    match response {
        HandshakeResponse::Reject(r) => assert_eq!(
            r.reason,
            "Your SLP version 3.19.0 outside peer's accepted range [0.0.0, 3.18.255]"
        ),
        HandshakeResponse::Accept(_) => panic!("expected a rejection"),
    }
    assert_eq!(host.group_rollover, config().rollover);
}

#[test]
fn answers_outside_the_configuration_are_refused() {
    let ok = HandshakeAccept { rollover: config().rollover, offset: config().offset };
    assert!(accept_is_valid(config(), &ok));
    for (rollover, offset) in [(59, 60), (241, 60), (120, 29), (120, 121)] {
        let bad = HandshakeAccept {
            rollover: ParamRange { min: 0, preferred: rollover, max: 1000 },
            offset: ParamRange { min: 0, preferred: offset, max: 1000 },
        };
        assert!(!accept_is_valid(config(), &bad));
        let mut joiner = state(config());
        let offer = offer(config());
        let reason = joiner.apply_response(&offer, HandshakeResponse::Accept(bad)).unwrap_err();
        assert_eq!(reason, "Peer returned invalid connection configuration");
        assert_eq!(joiner.config, config());
    }
}

#[test]
fn inconsistent_answers_are_refused() {
    let offer = offer(config());
    let mut joiner = state(config());
    let bad = HandshakeAccept {
        rollover: ParamRange { min: 500, preferred: 120, max: 600 },
        offset: config().offset,
    };
    let reason = joiner.apply_response(&offer, HandshakeResponse::Accept(bad)).unwrap_err();
    assert_eq!(reason, "rollover range [60, 240] does not overlap group window [60, 240]");
    let mut joiner = state(config());
    let bad = HandshakeAccept {
        rollover: ParamRange { min: 100, preferred: 120, max: 200 },
        offset: ParamRange { min: 500, preferred: 60, max: 600 },
    };
    let reason = joiner.apply_response(&offer, HandshakeResponse::Accept(bad)).unwrap_err();
    assert_eq!(reason, "offset range [30, 120] does not overlap group window [30, 120]");
    assert_eq!(joiner.config.rollover, ParamRange { min: 100, preferred: 120, max: 200 });
    assert_eq!(joiner.config.offset, config().offset);
}

#[test]
fn rejections_are_passed_on() {
    let mut joiner = state(config());
    let offer = offer(config());
    let reject = HandshakeReject { reason: "no".to_string() };
    let reason = joiner.apply_response(&offer, HandshakeResponse::Reject(reject)).unwrap_err();
    assert_eq!(reason, "no");
    assert_eq!(joiner.config, config());
}

fn policy(encryption_enabled: bool, accept_encrypted: bool, accept_unencrypted: bool) -> HandshakeConfig {
    let mut config = config();
    config.encryption_enabled = encryption_enabled;
    config.accept_encrypted = accept_encrypted;
    config.accept_unencrypted = accept_unencrypted;
    config
}

#[test]
fn strict_modes_do_not_mix() {
    let encrypted = policy(true, true, false);
    let unencrypted = policy(false, false, true);
    assert_eq!(encrypted, config());
    for (ours, theirs) in [(encrypted, unencrypted), (unencrypted, encrypted)] {
        let mut host = state(ours);
        let reason = host.evaluate_offer(offer(theirs)).unwrap_err();
        assert_eq!(reason, "Peer encryption mode is not accepted");
        assert_eq!(host.locked_encryption, None);
    }
    for mode in [encrypted, unencrypted] {
        let mut host = state(mode);
        let mut joiner = state(mode);
        let offer = joiner.make_offer([3, 19, 0], SSP_VERSION);
        let (response, _) = host.respond(offer);
        joiner.apply_response(&offer, response).unwrap();
        assert_eq!(host.locked_encryption, Some(mode.encryption_enabled));
        assert_eq!(joiner.locked_encryption, Some(mode.encryption_enabled));
        assert_eq!(host.encryption(), mode.encryption_enabled);
    }
}

#[test]
fn the_first_peer_locks_the_mode() {
    let mut host = state(policy(true, true, true));
    assert!(host.encryption());
    host.evaluate_offer(offer(policy(false, false, true))).unwrap();
    assert_eq!(host.locked_encryption, Some(false));
    assert!(!host.encryption());
    let reason = host.evaluate_offer(offer(config())).unwrap_err();
    assert_eq!(reason, "Peer encryption mode differs from the mode of the session");
    assert_eq!(host.locked_encryption, Some(false));
    let offered = host.make_offer([3, 19, 0], SSP_VERSION);
    assert!(!offered.config.encryption_enabled);
    host.evaluate_offer(offer(policy(false, true, true))).unwrap();
}

#[test]
fn modes_that_their_own_offer_excludes_are_refused() {
    let reason = state(config()).evaluate_offer(offer(policy(true, false, true))).unwrap_err();
    assert_eq!(reason, "Peer does not accept the encryption mode that it offers");
}

#[test]
fn answers_do_not_change_a_locked_mode() {
    let mut joiner = state(policy(true, true, true));
    let early = joiner.make_offer([3, 19, 0], SSP_VERSION);
    joiner.evaluate_offer(offer(policy(false, false, true))).unwrap();
    let accept = HandshakeAccept { rollover: config().rollover, offset: config().offset };
    let reason = joiner.apply_response(&early, HandshakeResponse::Accept(accept)).unwrap_err();
    assert_eq!(reason, "Offered encryption mode differs from the mode of the session");
    assert_eq!(joiner.locked_encryption, Some(false));
}

#[test]
fn order_of_joining_and_roles_do_not_matter() {
    let ranges = [
        ParamRange::new(60, 120, 240),
        ParamRange::new(80, 90, 200),
        ParamRange::new(50, 100, 180),
    ];
    let offers: Vec<HandshakeOffer> = ranges
        .iter()
        .map(|r| {
            let mut theirs = config();
            theirs.rollover = *r;
            offer(theirs)
        })
        .collect();
    for order in [[0, 1, 2], [0, 2, 1], [1, 0, 2], [1, 2, 0], [2, 0, 1], [2, 1, 0]] {
        let mut host = state(config());
        for i in order {
            host.evaluate_offer(offers[i]).unwrap();
        }
        assert_eq!(host.group_rollover, ParamRange { min: 80, preferred: 90, max: 180 });
    }
    let grouped = ranges[0].intersect(&ranges[1].intersect(&ranges[2]).unwrap());
    assert_eq!(ranges[0].intersect(&ranges[1]).unwrap().intersect(&ranges[2]), grouped);
    assert_eq!(ranges[0].intersect(&ranges[0]), Some(ranges[0]));

    let mut narrow = config();
    narrow.rollover = ranges[1];
    let one = state(config()).evaluate_offer(offer(narrow)).unwrap();
    let other = state(narrow).evaluate_offer(offer(config())).unwrap();
    assert_eq!((one.rollover, one.offset), (other.rollover, other.offset));
}
