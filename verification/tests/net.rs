use chacha20poly1305::aead::generic_array::GenericArray;
use chacha20poly1305::aead::Aead;
use chacha20poly1305::{ChaCha20Poly1305, KeyInit};
use ssp::crypter::{CrypterUpdate, GameKey};
use ssp::discovery::get_hashed_seed;
use ssp::dolphin::{DolphinEvent, GameMeta};
use ssp::game::{DiscoveryMode, Session, SessionState, TimeoutConfig};
use ssp::msg::{SLPMsg, SLPMsgData};
use ssp::net::{GameNet, KeyRing, NetAction};
use ssp::packet::ChunkAssembler;

const MS: u128 = 1_000_000;

fn key(n: u8) -> CrypterUpdate {
    CrypterUpdate::Key(GameKey { frames: 0, key: [n; 32] })
}

fn game(seed: u32) -> GameMeta {
    let mut meta = GameMeta::new();
    meta.seed = seed;
    meta
}

fn net(n: u8, seed: u32, encrypted: bool) -> GameNet {
    GameNet::new(
        &game(seed),
        [n; 32],
        encrypted,
        DiscoveryMode::BootstrapDhtFallback,
        "http://x".to_string(),
        [0x5e; 32],
        TimeoutConfig::default(),
        1512,
        0,
    )
}

fn discovered() -> Session {
    let mut session = Session::new();
    session.update_connection(true, true);
    session
}

fn public(n: u8) -> [u8; 32] {
    *iroh::SecretKey::from_bytes(&[n; 32]).public().as_bytes()
}

/// Lets everything that a peer sends arrive at another one.
fn pass_on(packets: &[Vec<u8>], to: &mut GameNet, assembler: &mut ChunkAssembler) {
    for packet in packets {
        if let Some(msg) = assembler.handle_content(packet) {
            to.enqueue(msg);
        }
    }
}

fn broadcasts(actions: &[NetAction]) -> Vec<Vec<u8>> {
    actions
        .iter()
        .filter_map(|a| match a {
            NetAction::Broadcast(packet) => Some(packet.clone()),
            _ => None,
        })
        .collect()
}

#[test]
fn identity_belongs_to_the_secret_key() {
    assert_eq!(net(7, 1, true).you(), public(7));
    let secret = hex::decode("9d61b19deffd5a60ba844af492ec2cc44449c5697b326919703bac031cae7f60");
    let secret: [u8; 32] = secret.unwrap().try_into().unwrap();
    let net = GameNet::new(
        &game(1),
        secret,
        false,
        DiscoveryMode::DhtOnly,
        String::new(),
        [0; 32],
        TimeoutConfig::default(),
        1,
        0,
    );
    assert_eq!(
        hex::encode(net.you()),
        "d75a980182b10ab7d54bfed3c964073a0ee172f3daa62325af021a68f707511a"
    );
}

#[test]
fn first_key_is_current_and_later_keys_wait_for_rotation() {
    let mut ring = KeyRing::new();
    ring.apply(&CrypterUpdate::Rotate);
    assert_eq!((ring.previous, ring.current, ring.next), (None, None, None));
    ring.apply(&key(1));
    assert_eq!((ring.previous, ring.current, ring.next), (None, Some([1; 32]), None));
    ring.apply(&key(2));
    assert_eq!((ring.current, ring.next), (Some([1; 32]), Some([2; 32])));
    ring.apply(&key(3));
    assert_eq!(ring.next, Some([3; 32]));
    ring.apply(&CrypterUpdate::Rotate);
    assert_eq!((ring.previous, ring.current, ring.next), (Some([1; 32]), Some([3; 32]), None));
    ring.apply(&CrypterUpdate::Rotate);
    assert_eq!((ring.previous, ring.current, ring.next), (Some([1; 32]), Some([3; 32]), None));
}

#[test]
fn encryption_is_chacha_and_opens_with_any_key_of_the_ring() {
    let mut sender = KeyRing::new();
    assert!(sender.encrypt_data(b"x", &[0; 12]).is_none());
    sender.apply(&key(1));
    let sealed = sender.encrypt_data(b"hello", &[9; 12]).unwrap();
    let expected = ChaCha20Poly1305::new(GenericArray::from_slice(&[1; 32]))
        .encrypt(GenericArray::from_slice(&[9; 12]), &b"hello"[..])
        .unwrap();
    assert_eq!(sealed, expected);
    assert_eq!(sender.decrypt_data(&sealed, &[9; 12]), Some(b"hello".to_vec()));
    let mut ahead = KeyRing::new();
    for update in [key(1), key(2), CrypterUpdate::Rotate] {
        ahead.apply(&update);
    }
    assert_eq!(ahead.decrypt_data(&sealed, &[9; 12]), Some(b"hello".to_vec()));
    let mut behind = KeyRing::new();
    for update in [key(5), key(1)] {
        behind.apply(&update);
    }
    assert_eq!(behind.decrypt_data(&sealed, &[9; 12]), Some(b"hello".to_vec()));
    assert_eq!(behind.decrypt_data(&sealed, &[8; 12]), None);
    assert_eq!(KeyRing::new().decrypt_data(&sealed, &[9; 12]), None);
}

#[test]
fn messages_get_through_unencrypted() {
    let mut a = net(1, 5, false);
    let mut b = net(2, 5, false);
    let mut sa = discovered();
    let mut sb = discovered();
    let mut assembler = ChunkAssembler::new();
    sa.send(b"first".to_vec());
    sa.send(vec![7; 10_000]);
    let one = a.pipe_outgoing(&mut sa, [1; 12], 1);
    assert_eq!(one.len(), 1);
    let many = a.pipe_outgoing(&mut sa, [2; 12], 2);
    assert_eq!(many.len(), 11);
    assert!(many.iter().all(|p| p.len() <= 1512));
    assert!(a.pipe_outgoing(&mut sa, [3; 12], 3).is_empty());
    let reversed: Vec<Vec<u8>> = many.into_iter().rev().collect();
    pass_on(&one, &mut b, &mut assembler);
    pass_on(&reversed, &mut b, &mut assembler);
    b.pipe_incoming(&mut sb, 11);
    b.pipe_incoming(&mut sb, 12);
    b.pipe_incoming(&mut sb, 13);
    let msg = sb.try_recv().unwrap().unwrap();
    assert_eq!((msg.from, msg.data, msg.recvtime), (public(1), b"first".to_vec(), 11));
    let msg = sb.try_recv().unwrap().unwrap();
    assert_eq!((msg.from, msg.data, msg.recvtime), (public(1), vec![7; 10_000], 12));
    assert!(sb.try_recv().unwrap().is_none());
}

#[test]
fn messages_get_through_encrypted_and_wait_for_the_key() {
    let mut a = net(1, 5, true);
    let mut b = net(2, 5, true);
    let mut sa = discovered();
    let mut sb = discovered();
    let mut assembler = ChunkAssembler::new();
    sa.send(b"secret".to_vec());
    assert!(a.pipe_outgoing(&mut sa, [1; 12], 1).is_empty());
    assert!(sa.has_outgoing());
    a.apply_key_update(&key(1));
    let packets = a.pipe_outgoing(&mut sa, [1; 12], 1);
    assert_eq!(packets.len(), 1);
    assert!(!packets[0].windows(6).any(|w| w == b"secret"));
    pass_on(&packets, &mut b, &mut assembler);
    b.pipe_incoming(&mut sb, 1);
    assert!(sb.try_recv().unwrap().is_none());
    b.apply_key_update(&key(1));
    pass_on(&packets, &mut b, &mut assembler);
    b.pipe_incoming(&mut sb, 1);
    assert_eq!(sb.try_recv().unwrap().unwrap().data, b"secret".to_vec());
}

#[test]
fn plaintext_is_dropped_by_an_encrypted_session() {
    let mut a = net(1, 5, false);
    let mut b = net(2, 5, true);
    let mut sa = discovered();
    let mut sb = discovered();
    b.apply_key_update(&key(1));
    sa.send(b"open".to_vec());
    let packets = a.pipe_outgoing(&mut sa, [1; 12], 1);
    pass_on(&packets, &mut b, &mut ChunkAssembler::new());
    b.pipe_incoming(&mut sb, 1);
    assert!(sb.try_recv().unwrap().is_none());
}

#[test]
fn nothing_is_sent_or_taken_before_the_handshake() {
    let mut a = net(1, 5, false);
    let mut b = net(2, 5, false);
    let mut waiting = Session::new();
    waiting.send(b"x".to_vec());
    assert!(a.pipe_outgoing(&mut waiting, [0; 12], 0).is_empty());
    assert!(waiting.has_outgoing());
    waiting.update_connection(true, true);
    let packets = a.pipe_outgoing(&mut waiting, [0; 12], 0);
    pass_on(&packets, &mut b, &mut ChunkAssembler::new());
    let mut early = Session::new();
    b.pipe_incoming(&mut early, 0);
    assert!(early.try_recv().unwrap().is_none());
    early.update_connection(true, true);
    b.pipe_incoming(&mut early, 0);
    assert_eq!(early.try_recv().unwrap().unwrap().data, b"x".to_vec());
}

#[test]
fn games_followed_together_keep_the_session() {
    let mut a = net(1, 5, false);
    let mut b = net(2, 5, false);
    let mut sa = discovered();
    let mut sb = discovered();
    let mut assembler = ChunkAssembler::new();
    for (n, s) in [(&mut a, &mut sa), (&mut b, &mut sb)] {
        assert!(n.handle_event(s, &DolphinEvent::GameEnd, &None).is_empty());
        assert_eq!(s.state(), SessionState::Idle);
        assert!(n.tick(s, 1));
    }
    let actions = a.handle_event(&mut sa, &DolphinEvent::NewGame(game(6)), &None);
    assert_eq!(sa.state(), SessionState::InGame);
    sa.send(b"second game hello".to_vec());
    assert!(a.pipe_outgoing(&mut sa, [0; 12], 0).is_empty());
    let from_a = broadcasts(&actions);
    assert_eq!(from_a.len(), 1);
    let from_b =
        broadcasts(&b.handle_event(&mut sb, &DolphinEvent::NewGame(game(6)), &None));
    pass_on(&from_a, &mut b, &mut assembler);
    pass_on(&from_b, &mut a, &mut assembler);
    a.pipe_incoming(&mut sa, 0);
    b.pipe_incoming(&mut sb, 0);
    let packets = a.pipe_outgoing(&mut sa, [0; 12], 0);
    assert_eq!(packets.len(), 1);
    pass_on(&packets, &mut b, &mut assembler);
    b.pipe_incoming(&mut sb, 0);
    assert_eq!(sb.try_recv().unwrap().unwrap().data, b"second game hello".to_vec());
    let apart = broadcasts(&a.handle_event(&mut sa, &DolphinEvent::NewGame(game(7)), &None));
    b.handle_event(&mut sb, &DolphinEvent::NewGame(game(8)), &None);
    pass_on(&apart, &mut b, &mut assembler);
    b.pipe_incoming(&mut sb, 0);
    assert_eq!(sb.state(), SessionState::Ended);
    assert!(!b.tick(&mut sb, 1));
}

#[test]
fn game_announcements_name_the_session() {
    let mut a = net(1, 5, false);
    let mut session = discovered();
    let actions = a.handle_event(&mut session, &DolphinEvent::NewGame(game(0x0506_0708)), &Some(vec![1]));
    assert_eq!(actions.len(), 3);
    let hash = "331073dd9634373153a2dca9c12ad1dba03f2b8ca8a2f59f994b7f39f2311d36";
    match &actions[0] {
        NetAction::Broadcast(packet) => {
            let msg = SLPMsg::from_bytes(packet).unwrap();
            assert!(msg.verify(&public(1)));
            match msg.body {
                SLPMsgData::NewGame { from, newseed } => {
                    assert_eq!(from, public(1));
                    assert_eq!(hex::encode(newseed), hash);
                }
                other => panic!("unexpected {other:?}"),
            }
        }
        other => panic!("unexpected {other:?}"),
    }
    match &actions[1] {
        NetAction::Reannounce(url) => {
            let start = format!("http://x/games/{hash}?id=");
            assert!(url.starts_with(&start));
            assert!(url.ends_with(&format!("&session={}&addr=AQ", "5e".repeat(32))));
        }
        other => panic!("unexpected {other:?}"),
    }
    match &actions[2] {
        NetAction::PublishDht(topic) => assert_eq!(topic, "05060708"),
        other => panic!("unexpected {other:?}"),
    }
}

#[test]
fn strategies_limit_announcements() {
    for (mode, reannounced, published) in
        [(DiscoveryMode::BootstrapOnly, 1, 0), (DiscoveryMode::DhtOnly, 0, 1)]
    {
        let mut net = GameNet::new(
            &game(5),
            [1; 32],
            false,
            mode,
            "http://x".to_string(),
            [0; 32],
            TimeoutConfig::default(),
            1512,
            0,
        );
        let actions =
            net.handle_event(&mut discovered(), &DolphinEvent::NewGame(game(6)), &None);
        let count = |f: fn(&NetAction) -> bool| actions.iter().filter(|a| f(a)).count();
        assert_eq!(count(|a| matches!(a, NetAction::Reannounce(_))), reannounced);
        assert_eq!(count(|a| matches!(a, NetAction::PublishDht(_))), published);
    }
}

#[test]
fn other_game_before_the_handshake_ends_the_session() {
    let mut a = net(1, 5, false);
    let mut session = Session::new();
    assert!(a.handle_event(&mut session, &DolphinEvent::GameEnd, &None).is_empty());
    assert_eq!(session.state(), SessionState::Idle);
    assert_eq!(a.handle_event(&mut session, &DolphinEvent::NewGame(game(5)), &None).len(), 3);
    assert_eq!(session.state(), SessionState::InGame);
    let actions = a.handle_event(&mut session, &DolphinEvent::NewGame(game(6)), &None);
    assert_eq!(actions.len(), 1);
    assert!(matches!(actions[0], NetAction::EndSession));
    assert_eq!(session.state(), SessionState::Ended);
    for event in [DolphinEvent::GameEnd, DolphinEvent::NewGame(game(5)), DolphinEvent::Disconnected] {
        assert!(a.handle_event(&mut session, &event, &None).is_empty());
        assert_eq!(session.state(), SessionState::Ended);
    }
    assert!(!a.tick(&mut session, 0));
}

#[test]
fn peers_must_follow_in_time() {
    let mut a = net(1, 5, false);
    let mut session = discovered();
    assert!(a.tick(&mut session, 100_000 * MS));
    a.handle_event(&mut session, &DolphinEvent::NewGame(game(6)), &None);
    assert!(a.tick(&mut session, 102_000 * MS));
    assert!(!a.tick(&mut session, 102_000 * MS + 1));
    assert_eq!(session.state(), SessionState::Ended);
}

#[test]
fn peers_that_follow_keep_the_session() {
    let mut a = net(1, 5, false);
    let mut session = discovered();
    a.handle_event(&mut session, &DolphinEvent::NewGame(game(6)), &None);
    let newseed = get_hashed_seed("00000006");
    a.enqueue(SLPMsg::new_signed(SLPMsgData::NewGame { from: public(2), newseed }, &[2; 32]));
    a.pipe_incoming(&mut session, 0);
    assert_eq!(session.state(), SessionState::InGame);
    assert!(a.tick(&mut session, 1_000_000 * MS));
    a.handle_event(&mut session, &DolphinEvent::GameEnd, &None);
    assert!(a.tick(&mut session, 2_000_000 * MS));
    a.handle_event(&mut session, &DolphinEvent::Disconnected, &None);
    assert_eq!(session.state(), SessionState::Idle);
}

#[test]
fn keys_do_not_outlast_their_game() {
    let mut a = net(1, 5, true);
    let mut session = discovered();
    a.apply_key_update(&key(1));
    a.handle_event(&mut session, &DolphinEvent::NewGame(game(5)), &None);
    session.send(b"x".to_vec());
    assert!(a.pipe_outgoing(&mut session, [0; 12], 0).is_empty());
    a.apply_key_update(&key(2));
    assert_eq!(a.pipe_outgoing(&mut session, [0; 12], 0).len(), 1);
}

#[test]
fn first_announcement_is_of_the_current_game() {
    let a = net(1, 5, false);
    let msg = SLPMsg::from_bytes(&a.announce()).unwrap();
    match msg.body {
        SLPMsgData::NewGame { newseed, .. } => assert_eq!(newseed, get_hashed_seed("00000005")),
        other => panic!("unexpected {other:?}"),
    }
}

#[test]
fn announcements_are_accepted_by_peers_and_forgeries_are_not() {
    let a = net(1, 5, false);
    let packet = a.announce();
    let mut assembler = ChunkAssembler::new();
    match assembler.handle_content(&packet).unwrap().body {
        SLPMsgData::NewGame { from, newseed } => {
            assert_eq!(from, public(1));
            assert_eq!(newseed, get_hashed_seed("00000005"));
        }
        other => panic!("unexpected {other:?}"),
    }

    let mut forged = packet.clone();
    let last = forged.len() - 1;
    forged[last] ^= 1;
    assert!(assembler.handle_content(&forged).is_none());
}

#[test]
fn the_handshake_decides_on_encryption() {
    let mut a = net(1, 5, true);
    let mut session = discovered();
    session.send(b"plain".to_vec());
    assert!(a.pipe_outgoing(&mut session, [0; 12], 0).is_empty());
    a.lock_encryption(false);
    let packets = a.pipe_outgoing(&mut session, [0; 12], 0);
    assert_eq!(packets.len(), 1);
    assert!(packets[0].windows(5).any(|w| w == b"plain"));
    assert!(!session.has_outgoing());
}

#[test]
fn sessions_found_later_are_announced() {
    let mut a = net(1, 5, false);
    let mut session = discovered();
    a.adopt_session([0xab; 32]);
    let actions = a.handle_event(&mut session, &DolphinEvent::NewGame(game(6)), &None);
    match &actions[1] {
        NetAction::Reannounce(url) => {
            assert!(url.ends_with(&format!("&session={}", "ab".repeat(32))))
        }
        other => panic!("unexpected {other:?}"),
    }
}
