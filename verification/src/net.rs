//! A session's network side: which keys are in use, what is sent and received, and
//! when the session goes on or ends.

use vstd::prelude::*;
use vstd::string::*;

use crate::crypter::{CrypterUpdate, Update};
use crate::crypto::{self, EndpointId};
use crate::discovery;
use crate::dolphin::{DolphinEvent, GameMeta};
use crate::encoding;
use crate::game::{ConnectionState, DiscoveryMode, Play, Session, SessionState, TimeoutConfig};
use crate::msg::{self, Msg, MsgBody, MsgPayload, Received, SLPMsg, SLPMsgData, SignedMsg};
use crate::packet;

verus! {

/// Nanoseconds in a millisecond.
pub const NANOS_PER_MILLI: u128 = 1_000_000;

// ---------------------------------------------------------------------------
// Keys
// ---------------------------------------------------------------------------
/// The keys of a session.
#[derive(Clone, Copy)]
pub struct KeyRing {
    /// The key used before.
    pub previous: Option<[u8; 32]>,
    /// The key in use.
    pub current: Option<[u8; 32]>,
    /// The key to be used next.
    pub next: Option<[u8; 32]>,
}

/// Mathematical value of a [`KeyRing`].
pub struct Keys {
    /// The key used before.
    pub previous: Option<Seq<u8>>,
    /// The key in use.
    pub current: Option<Seq<u8>>,
    /// The key to be used next.
    pub next: Option<Seq<u8>>,
}

impl View for KeyRing {
    type V = Keys;

    open spec fn view(&self) -> Keys {
        Keys {
            previous: discovery::opt_hash(self.previous),
            current: discovery::opt_hash(self.current),
            next: discovery::opt_hash(self.next),
        }
    }
}

/// No keys.
pub open spec fn no_keys() -> Keys {
    Keys { previous: None, current: None, next: None }
}

/// What an update of the crypter does. The first key is used at once; a later one
/// when it is rotated in.
pub open spec fn keys_updated(keys: Keys, update: Update) -> Keys {
    match update {
        Update::Key { key, .. } => if keys.current is None {
            Keys { current: Some(key), ..keys }
        } else {
            Keys { next: Some(key), ..keys }
        },
        Update::Rotate => if keys.next is Some {
            Keys { previous: keys.current, current: keys.next, next: None }
        } else {
            keys
        },
    }
}

/// What a key makes of a ciphertext; nothing without a key.
pub open spec fn opened_by(key: Option<Seq<u8>>, nonce: Seq<u8>, ciphertext: Seq<u8>) -> Option<
    Seq<u8>,
> {
    match key {
        Some(k) => crypto::chacha_opened(k, nonce, ciphertext),
        None => None,
    }
}

/// What the keys make of a ciphertext: the key in use is tried first, then the one
/// before, then the one to come.
pub open spec fn opened(keys: Keys, nonce: Seq<u8>, ciphertext: Seq<u8>) -> Option<Seq<u8>> {
    if opened_by(keys.current, nonce, ciphertext) is Some {
        opened_by(keys.current, nonce, ciphertext)
    } else if opened_by(keys.previous, nonce, ciphertext) is Some {
        opened_by(keys.previous, nonce, ciphertext)
    } else {
        opened_by(keys.next, nonce, ciphertext)
    }
}

/// What the key in use makes of a plaintext; nothing without a key.
pub open spec fn sealed(keys: Keys, nonce: Seq<u8>, plaintext: Seq<u8>) -> Option<Seq<u8>> {
    match keys.current {
        Some(k) => crypto::chacha_sealed(k, nonce, plaintext),
        None => None,
    }
}

/// Decrypts with one key.
fn open_with(key: &Option<[u8; 32]>, nonce: &[u8; 12], ciphertext: &[u8]) -> (plaintext: Option<
    Vec<u8>,
>)
    ensures
        crypto::bytes_of(plaintext) == opened_by(discovery::opt_hash(*key), nonce@, ciphertext@),
{
    match key {
        Some(k) => crypto::chacha_decrypt(k, nonce, ciphertext),
        None => None,
    }
}

impl KeyRing {
    /// A ring without keys.
    pub fn new() -> (ring: KeyRing)
        ensures
            ring@ == no_keys(),
    {
        KeyRing { previous: None, current: None, next: None }
    }

    /// Takes in an update of the crypter.
    pub fn apply(&mut self, update: &CrypterUpdate)
        ensures
            final(self)@ == keys_updated(old(self)@, update@),
    {
        match update {
            CrypterUpdate::Key(new_key) => {
                if self.current.is_none() {
                    self.current = Some(new_key.key);
                } else {
                    self.next = Some(new_key.key);
                }
            },
            CrypterUpdate::Rotate => {
                match self.next {
                    Some(next) => {
                        self.previous = self.current;
                        self.current = Some(next);
                        self.next = None;
                    },
                    None => {},
                }
            },
        }
    }

    /// Encrypts with the key in use. What it makes is opened by the same key again.
    pub fn encrypt_data(&self, plaintext: &[u8], nonce: &[u8; 12]) -> (ciphertext: Option<Vec<u8>>)
        ensures
            crypto::bytes_of(ciphertext) == sealed(self@, nonce@, plaintext@),
            ciphertext matches Some(c) ==> opened_by(self@.current, nonce@, c@) == Some(
                plaintext@,
            ),
    {
        match &self.current {
            Some(key) => crypto::chacha_encrypt(key, nonce, plaintext),
            None => None,
        }
    }

    /// Decrypts with the first key that fits.
    pub fn decrypt_data(&self, ciphertext: &[u8], nonce: &[u8; 12]) -> (plaintext: Option<Vec<u8>>)
        ensures
            crypto::bytes_of(plaintext) == opened(self@, nonce@, ciphertext@),
    {
        match open_with(&self.current, nonce, ciphertext) {
            Some(plaintext) => Some(plaintext),
            None => match open_with(&self.previous, nonce, ciphertext) {
                Some(plaintext) => Some(plaintext),
                None => open_with(&self.next, nonce, ciphertext),
            },
        }
    }
}

/// A rotation loses nothing: what the key in use opened before, some key opens
/// after, until the next rotation; and a later key does not replace the key in use
/// before it is rotated in.
pub proof fn law_rotation_keeps_previous(keys: Keys, update: Update, nonce: Seq<u8>, c: Seq<u8>)
    requires
        opened_by(keys.current, nonce, c) is Some,
    ensures
        opened(keys_updated(keys, update), nonce, c) is Some,
        update is Key ==> keys_updated(keys, update).current == keys.current,
        update is Rotate && keys.next is Some ==> keys_updated(keys, update).previous
            == keys.current,
{
}

// ---------------------------------------------------------------------------
// The session
// ---------------------------------------------------------------------------
/// The network side of a session.
pub struct GameNet {
    id: EndpointId,
    secret_key: [u8; 32],
    encryption_enabled: bool,
    discovery_mode: DiscoveryMode,
    bootstrap_url: String,
    bootstrap_session_hash: [u8; 32],
    timeouts: TimeoutConfig,
    max_packet_length: usize,
    current_seed_hash: [u8; 32],
    peer_seed_hash: Option<[u8; 32]>,
    local_in_game: bool,
    keys: KeyRing,
    inbox: Vec<SLPMsg>,
    last_newgame_time: u128,
}

/// Mathematical value of a [`GameNet`].
#[verifier::ext_equal]
pub struct Net {
    /// The own identity.
    pub id: Seq<u8>,
    /// The own secret key.
    pub secret: Seq<u8>,
    /// Whether messages are encrypted.
    pub encrypted: bool,
    /// How peers are discovered.
    pub mode: DiscoveryMode,
    /// Bootstrap server.
    pub bootstrap_url: Seq<char>,
    /// The session.
    pub session: Seq<u8>,
    /// How long peers may take to start the same game, in milliseconds.
    pub match_ms: u64,
    /// Longest packet.
    pub max_packet_length: int,
    /// Hash of the game that is, or was last, played here.
    pub current: Seq<u8>,
    /// Hash of the game that the peers announced, if it is the same.
    pub peer: Option<Seq<u8>>,
    /// Whether a game is played here.
    pub in_game: bool,
    /// The keys.
    pub keys: Keys,
    /// Messages received and not yet dealt with, oldest first.
    pub inbox: Seq<SignedMsg>,
    /// When the peers were last known to play the same game, in nanoseconds.
    pub matched_at: int,
}

/// Values of some messages.
pub open spec fn msgs_view(v: Seq<SLPMsg>) -> Seq<SignedMsg> {
    Seq::new(v.len(), |i: int| v[i]@)
}

impl View for GameNet {
    type V = Net;

    closed spec fn view(&self) -> Net {
        Net {
            id: self.id@,
            secret: self.secret_key@,
            encrypted: self.encryption_enabled,
            mode: self.discovery_mode,
            bootstrap_url: self.bootstrap_url@,
            session: self.bootstrap_session_hash@,
            match_ms: self.timeouts.newgame_match_ms,
            max_packet_length: self.max_packet_length as int,
            current: self.current_seed_hash@,
            peer: discovery::opt_hash(self.peer_seed_hash),
            in_game: self.local_in_game,
            keys: self.keys@,
            inbox: msgs_view(self.inbox@),
            matched_at: self.last_newgame_time as int,
        }
    }
}

/// Whether the own identity is the one that belongs to the own secret key.
pub open spec fn owns_identity(net: Net) -> bool {
    net.id == crypto::public_key_of(net.secret) && crypto::valid_endpoint_id(net.id)
}

/// Whether packets carry a message: one the message itself, or several its
/// fragments.
pub open spec fn transmits(packets: Seq<Seq<u8>>, net: Net, m: SignedMsg, chunk_id: u64) -> bool {
    packets == seq![msg::msg_bytes(m)] || packet::fragments_of(
        packets,
        msg::msg_bytes(m),
        packet::chunk_size(net.max_packet_length),
        net.id,
        chunk_id,
    )
}

/// Whether the peers are known to play the game that is played here.
pub open spec fn peers_match(net: Net) -> bool {
    net.peer == Some(net.current)
}

/// Whether a peer has completed the handshake.
pub open spec fn discovered(session: Play) -> bool {
    session.connection == ConnectionState::Discovered
}

/// The message that announces a game.
pub open spec fn new_game_msg(net: Net, hash: Seq<u8>) -> SignedMsg {
    msg::msg_signed(MsgBody::NewGame { from: net.id, newseed: hash }, net.secret)
}

/// The packet that announces a game.
pub open spec fn new_game_packet(net: Net, hash: Seq<u8>) -> Seq<u8> {
    msg::msg_bytes(new_game_msg(net, hash))
}

/// Whether peers accept the message that announces a game.
pub open spec fn announces(net: Net, hash: Seq<u8>) -> bool {
    msg::msg_wf(new_game_msg(net, hash)) && msg::msg_verifies(new_game_msg(net, hash), net.id)
}

/// What is to be done about a game event.
#[derive(Debug)]
pub enum NetAction {
    /// Send a packet to all peers.
    Broadcast(Vec<u8>),
    /// Ask a URL of the bootstrap server, as long as the session lasts.
    Reannounce(String),
    /// Publish the session for a topic in the distributed hash table, as long as
    /// the session lasts.
    PublishDht(String),
    /// Stop everything that belongs to the session.
    EndSession,
}

/// Mathematical value of a [`NetAction`].
pub enum Effect {
    /// Send a packet to all peers.
    Broadcast(Seq<u8>),
    /// Ask a URL of the bootstrap server.
    Reannounce(Seq<char>),
    /// Publish the session for a topic.
    PublishDht(Seq<char>),
    /// Stop everything that belongs to the session.
    EndSession,
}

impl View for NetAction {
    type V = Effect;

    open spec fn view(&self) -> Effect {
        match self {
            NetAction::Broadcast(packet) => Effect::Broadcast(packet@),
            NetAction::Reannounce(url) => Effect::Reannounce(url@),
            NetAction::PublishDht(topic) => Effect::PublishDht(topic@),
            NetAction::EndSession => Effect::EndSession,
        }
    }
}

/// Values of some actions.
pub open spec fn effects(v: Seq<NetAction>) -> Seq<Effect> {
    Seq::new(v.len(), |i: int| v[i]@)
}

/// What the start of a game means for the network side.
pub open spec fn game_entered(net: Net, hash: Seq<u8>) -> Net {
    Net {
        current: hash,
        keys: no_keys(),
        peer: if net.peer == Some(hash) {
            net.peer
        } else {
            None
        },
        in_game: true,
        ..net
    }
}

/// What is to be done when a game starts: the peers are told, and those who may
/// join later find the session under the new game.
pub open spec fn game_announced(net: Net, topic: Seq<char>, wire: Option<Seq<u8>>) -> Seq<Effect> {
    seq![Effect::Broadcast(new_game_packet(net, discovery::topic_hash(topic)))]
        + (if discovery::asks_bootstrap(net.mode) {
        seq![
            Effect::Reannounce(
                discovery::announce_text(
                    net.bootstrap_url,
                    topic,
                    net.id,
                    Some(net.session),
                    wire,
                ),
            ),
        ]
    } else {
        Seq::empty()
    }) + (if discovery::uses_dht(net.mode) {
        seq![Effect::PublishDht(topic)]
    } else {
        Seq::empty()
    })
}

/// Whether the start of a game ends the session: another game was started before
/// any peer completed the handshake.
pub open spec fn abandons(net: Net, session: Play, seed: u32) -> bool {
    discovery::topic_hash(discovery::seed_text(seed)) != net.current && !discovered(session)
}

/// What a game event does: the network side and the state of the session
/// afterwards, and what is to be done. A session that has ended stays so.
pub open spec fn event_handled(
    net: Net,
    session: Play,
    event: DolphinEvent,
    wire: Option<Seq<u8>>,
) -> (Net, SessionState, Seq<Effect>) {
    if session.state == SessionState::Ended {
        (net, SessionState::Ended, Seq::empty())
    } else {
        match event {
            DolphinEvent::NewGame(meta) => if abandons(net, session, meta.seed) {
                (net, SessionState::Ended, seq![Effect::EndSession])
            } else {
                let topic = discovery::seed_text(meta.seed);
                (
                    game_entered(net, discovery::topic_hash(topic)),
                    SessionState::InGame,
                    game_announced(net, topic, wire),
                )
            },
            DolphinEvent::GameEnd => (
                Net { in_game: false, keys: no_keys(), ..net },
                SessionState::Idle,
                Seq::empty(),
            ),
            DolphinEvent::Disconnected => (net, session.state, Seq::empty()),
        }
    }
}

/// Whether the peers have taken too long to start the game that is played here.
pub open spec fn overdue(net: Net, now: u128) -> bool {
    net.in_game && !peers_match(net) && now - net.matched_at > net.match_ms * NANOS_PER_MILLI
}

/// Whether a message can be sent now. Where messages are encrypted, they wait for
/// the first key.
pub open spec fn may_send(net: Net, session: Play) -> bool {
    &&& peers_match(net)
    &&& discovered(session)
    &&& session.outgoing.len() > 0
    &&& net.encrypted ==> net.keys.current is Some
}

/// The bytes that carry an application's message: encrypted where the session is.
/// In an encrypted session there are none for what cannot be encrypted.
pub open spec fn outgoing_data(net: Net, data: Seq<u8>, nonce: Seq<u8>) -> Option<Seq<u8>> {
    let plaintext = encoding::bin_payload(net.id, data);
    if net.encrypted {
        sealed(net.keys, nonce, plaintext)
    } else {
        Some(plaintext)
    }
}

/// The message that carries an application's message, if there is one.
pub open spec fn outgoing_msg(net: Net, data: Seq<u8>, nonce: Seq<u8>) -> Option<SignedMsg> {
    match outgoing_data(net, data, nonce) {
        Some(data) => Some(msg::msg_signed(MsgBody::Data { data, nonce }, net.secret)),
        None => None,
    }
}

/// The packets that carry an application's message; none for what cannot be sent.
pub open spec fn outgoing_packets(net: Net, data: Seq<u8>, nonce: Seq<u8>, chunk_id: u64) -> Seq<
    Seq<u8>,
> {
    match outgoing_msg(net, data, nonce) {
        Some(m) => packet::packets_of(
            msg::msg_bytes(m),
            net.max_packet_length,
            net.id,
            chunk_id,
            net.secret,
        ),
        None => Seq::empty(),
    }
}

/// What a received message holds for the application. What cannot be decrypted is
/// dropped.
pub open spec fn incoming_data(net: Net, data: Seq<u8>, nonce: Seq<u8>) -> Option<
    (Seq<u8>, Seq<u8>),
> {
    if net.encrypted {
        match opened(net.keys, nonce, data) {
            Some(plaintext) => msg::payload_parsed(plaintext),
            None => None,
        }
    } else {
        msg::payload_parsed(data)
    }
}

/// Whether a received message is dealt with now: data only once a peer has
/// completed the handshake, announcements of games at any time.
pub open spec fn is_ready(m: SignedMsg, discovered: bool) -> bool {
    m.body is NewGame || (discovered && m.body is Data)
}

/// Index of the first message that is dealt with now; the number of messages if
/// there is none.
pub open spec fn first_ready(inbox: Seq<SignedMsg>, discovered: bool) -> int
    decreases inbox.len(),
{
    if inbox.len() == 0 || is_ready(inbox[0], discovered) {
        0
    } else {
        1 + first_ready(inbox.skip(1), discovered)
    }
}

/// What the passing of time does: the network side and the session at `now`, and whether
/// the session goes on.
pub open spec fn ticked(net: Net, session: Play, now: u128) -> (Net, Play, bool) {
    if session.state == SessionState::Ended || overdue(net, now) {
        (net, Play { state: SessionState::Ended, ..session }, false)
    } else if peers_match(net) || !net.in_game {
        (Net { matched_at: now as int, ..net }, session, true)
    } else {
        (net, session, true)
    }
}

/// The session once a message was sent, if one can be sent.
pub open spec fn sent_one(net: Net, session: Play) -> Play {
    if may_send(net, session) {
        Play { outgoing: session.outgoing.skip(1), ..session }
    } else {
        session
    }
}

/// What a received message does to the network side, off whose inbox it was taken, and
/// to the session.
pub open spec fn msg_handled(net: Net, session: Play, m: SignedMsg, recvtime: u128) -> (Net, Play) {
    match m.body {
        MsgBody::Data { data, nonce } => match incoming_data(net, data, nonce) {
            Some((from, data)) => (
                net,
                Play {
                    incoming: session.incoming.push(Received { from, recvtime, data }),
                    ..session
                },
            ),
            None => (net, session),
        },
        MsgBody::NewGame { newseed, .. } => if newseed == net.current {
            (Net { peer: Some(newseed), ..net }, session)
        } else {
            (net, Play { state: SessionState::Ended, ..session })
        },
        MsgBody::Chunk { .. } => (net, session),
    }
}

/// The network side with another received message behind those to be dealt with.
pub open spec fn msg_enqueued(net: Net, m: SignedMsg) -> Net {
    Net { inbox: net.inbox.push(m), ..net }
}

/// What the first received message that is dealt with now does; nothing if there is none.
pub open spec fn incoming_handled(net: Net, session: Play, recvtime: u128) -> (Net, Play) {
    let i = first_ready(net.inbox, discovered(session));
    if i < net.inbox.len() {
        msg_handled(
            Net { inbox: net.inbox.remove(i), ..net },
            session,
            net.inbox[i],
            recvtime,
        )
    } else {
        (net, session)
    }
}

impl GameNet {
    /// The network side of a session in its first game. The peers count as playing
    /// that game until they say otherwise.
    pub fn new(
        meta: &GameMeta,
        secret_key: [u8; 32],
        encryption_enabled: bool,
        discovery_mode: DiscoveryMode,
        bootstrap_url: String,
        bootstrap_session_hash: [u8; 32],
        timeouts: TimeoutConfig,
        max_packet_length: usize,
        now: u128,
    ) -> (net: GameNet)
        ensures
            net@ == (Net {
                id: crypto::public_key_of(secret_key@),
                secret: secret_key@,
                encrypted: encryption_enabled,
                mode: discovery_mode,
                bootstrap_url: bootstrap_url@,
                session: bootstrap_session_hash@,
                match_ms: timeouts.newgame_match_ms,
                max_packet_length: max_packet_length as int,
                current: discovery::topic_hash(discovery::seed_text(meta.seed)),
                peer: Some(discovery::topic_hash(discovery::seed_text(meta.seed))),
                in_game: true,
                keys: no_keys(),
                inbox: Seq::empty(),
                matched_at: now as int,
            }),
            owns_identity(net@),
    {
        let topic = discovery::seed_topic(meta.seed);
        let hash = discovery::get_hashed_seed(topic.as_str());
        let net = GameNet {
            id: crypto::public_key(&secret_key),
            secret_key,
            encryption_enabled,
            discovery_mode,
            bootstrap_url,
            bootstrap_session_hash,
            timeouts,
            max_packet_length,
            current_seed_hash: hash,
            peer_seed_hash: Some(hash),
            local_in_game: true,
            keys: KeyRing::new(),
            inbox: Vec::new(),
            last_newgame_time: now,
        };
        assert(net@.inbox =~= Seq::empty());
        net
    }

    /// The own identity.
    pub fn you(&self) -> (id: EndpointId)
        ensures
            id@ == self@.id,
    {
        self.id
    }

    /// The packet that announces a game.
    fn new_game(&self, hash: [u8; 32]) -> (packet: Vec<u8>)
        ensures
            packet@ == new_game_packet(self@, hash@),
            owns_identity(self@) ==> announces(self@, hash@),
    {
        let signed = SLPMsg::new_signed(
            SLPMsgData::NewGame { from: self.id, newseed: hash },
            &self.secret_key,
        );
        assert(signed@ == new_game_msg(self@, hash@));
        signed.to_vec()
    }

    /// The packet that announces the game that is played here.
    pub fn announce(&self) -> (packet: Vec<u8>)
        ensures
            packet@ == new_game_packet(self@, self@.current),
            owns_identity(self@) ==> announces(self@, self@.current),
    {
        self.new_game(self.current_seed_hash)
    }

    /// Takes in an update of the crypter.
    pub fn apply_key_update(&mut self, update: &CrypterUpdate)
        ensures
            final(self)@ == (Net { keys: keys_updated(old(self)@.keys, update@), ..old(self)@ }),
    {
        self.keys.apply(update);
    }

    /// Takes in whether the session is encrypted, as the handshake has decided it.
    pub fn lock_encryption(&mut self, encrypted: bool)
        ensures
            final(self)@ == (Net { encrypted, ..old(self)@ }),
    {
        self.encryption_enabled = encrypted;
    }

    /// Takes over the session of a peer that was found later.
    pub fn adopt_session(&mut self, hash: [u8; 32])
        ensures
            final(self)@ == (Net { session: hash@, ..old(self)@ }),
    {
        self.bootstrap_session_hash = hash;
    }

    /// Handles a game event; `wire` is the own address in binary form.
    pub fn handle_event(
        &mut self,
        session: &mut Session,
        event: &DolphinEvent,
        wire: &Option<Vec<u8>>,
    ) -> (actions: Vec<NetAction>)
        ensures
            ({
                let (net, state, todo) = event_handled(
                    old(self)@,
                    old(session)@,
                    *event,
                    crypto::bytes_of(*wire),
                );
                &&& final(self)@ == net
                &&& final(session)@ == (Play { state, ..old(session)@ })
                &&& effects(actions@) == todo
                &&& owns_identity(old(self)@) && event is NewGame && state != SessionState::Ended
                    ==> announces(old(self)@, net.current)
            }),
    {
        let mut actions: Vec<NetAction> = Vec::new();
        assert(effects(actions@) =~= Seq::empty());
        if session.state() == SessionState::Ended {
            return actions;
        }
        match event {
            DolphinEvent::NewGame(meta) => {
                let topic = discovery::seed_topic(meta.seed);
                let new_hash = discovery::get_hashed_seed(topic.as_str());
                if !crypto::same_bytes(&new_hash, &self.current_seed_hash)
                    && !session.peer_discovered() {
                    session.set_state(SessionState::Ended);
                    actions.push(NetAction::EndSession);
                    assert(effects(actions@) =~= seq![Effect::EndSession]);
                    return actions;
                }
                let ghost announced = game_announced(self@, topic@, crypto::bytes_of(*wire));
                actions.push(NetAction::Broadcast(self.new_game(new_hash)));
                if self.discovery_mode != DiscoveryMode::DhtOnly {
                    let url = discovery::announce_url(
                        self.bootstrap_url.as_str(),
                        topic.as_str(),
                        &self.id,
                        &Some(self.bootstrap_session_hash),
                        wire,
                    );
                    actions.push(NetAction::Reannounce(url));
                }
                if self.discovery_mode != DiscoveryMode::BootstrapOnly {
                    actions.push(NetAction::PublishDht(topic));
                }
                assert(effects(actions@) =~= announced);
                let keeps_peer = match &self.peer_seed_hash {
                    Some(peer) => crypto::same_bytes(peer, &new_hash),
                    None => false,
                };
                self.current_seed_hash = new_hash;
                self.keys = KeyRing::new();
                if !keeps_peer {
                    self.peer_seed_hash = None;
                }
                self.local_in_game = true;
                session.set_state(SessionState::InGame);
            },
            DolphinEvent::GameEnd => {
                self.local_in_game = false;
                self.keys = KeyRing::new();
                session.set_state(SessionState::Idle);
            },
            DolphinEvent::Disconnected => {},
        }
        actions
    }

    /// Tells whether the session goes on at `now`. It ends where the peers have
    /// taken too long to start the game that is played here.
    pub fn tick(&mut self, session: &mut Session, now: u128) -> (goes_on: bool)
        ensures
            (final(self)@, final(session)@, goes_on) == ticked(old(self)@, old(session)@, now),
            goes_on == (old(session)@.state != SessionState::Ended && !overdue(
                old(self)@,
                now,
            )),
            final(session)@ == (Play {
                state: if goes_on {
                    old(session)@.state
                } else {
                    SessionState::Ended
                },
                ..old(session)@
            }),
            final(self)@ == (Net {
                matched_at: if goes_on && (peers_match(old(self)@) || !old(self)@.in_game) {
                    now as int
                } else {
                    old(self)@.matched_at
                },
                ..old(self)@
            }),
    {
        if session.state() == SessionState::Ended {
            return false;
        }
        let matches = match &self.peer_seed_hash {
            Some(peer) => crypto::same_bytes(peer, &self.current_seed_hash),
            None => false,
        };
        if self.local_in_game && !matches {
            let limit: u128 = self.timeouts.newgame_match_ms as u128 * NANOS_PER_MILLI;
            if now > self.last_newgame_time && now - self.last_newgame_time > limit {
                session.set_state(SessionState::Ended);
                return false;
            }
        } else {
            self.last_newgame_time = now;
        }
        true
    }

    /// Takes the next message of the application and makes it into packets for the
    /// peers, if messages can be sent now. In an encrypted session nothing is sent of
    /// what cannot be encrypted. `nonce` and `chunk_id` are random.
    pub fn pipe_outgoing(&mut self, session: &mut Session, nonce: [u8; 12], chunk_id: u64) -> (packets:
        Vec<Vec<u8>>)
        ensures
            final(self)@ == old(self)@,
            final(session)@ == sent_one(old(self)@, old(session)@),
            may_send(old(self)@, old(session)@) ==> {
                let net = old(self)@;
                let data = old(session)@.outgoing[0];
                &&& packet::views(packets@) == outgoing_packets(net, data, nonce@, chunk_id)
                &&& final(session)@ == (Play {
                    outgoing: old(session)@.outgoing.skip(1),
                    ..old(session)@
                })
                &&& forall|i: int|
                    0 <= i < packets@.len() ==> (#[trigger] packets@[i])@.len()
                        <= net.max_packet_length
                &&& net.encrypted && outgoing_data(net, data, nonce@) is None ==> packets@.len()
                    == 0
                &&& net.encrypted ==> (outgoing_data(net, data, nonce@) matches Some(c)
                    ==> opened_by(net.keys.current, nonce@, c) == Some(
                    encoding::bin_payload(net.id, data),
                ))
                &&& owns_identity(net) ==> (outgoing_msg(net, data, nonce@) matches Some(m) ==> {
                    &&& msg::msg_wf(m)
                    &&& msg::msg_verifies(m, net.id)
                    &&& packets@.len() > 0 ==> transmits(
                        packet::views(packets@),
                        net,
                        m,
                        chunk_id,
                    )
                })
            },
            !may_send(old(self)@, old(session)@) ==> packets@.len() == 0 && final(session)@ == old(
                session,
            )@,
    {
        let matches = match &self.peer_seed_hash {
            Some(peer) => crypto::same_bytes(peer, &self.current_seed_hash),
            None => false,
        };
        let has_key = !self.encryption_enabled || self.keys.current.is_some();
        if !matches || !session.peer_discovered() || !has_key {
            return Vec::new();
        }
        let data = match session.take_outgoing() {
            Some(data) => data,
            None => {
                return Vec::new();
            },
        };
        let ghost sent = data@;
        let plaintext = MsgPayload { from: self.id, data }.to_vec();
        let final_bytes = if self.encryption_enabled {
            match self.keys.encrypt_data(plaintext.as_slice(), &nonce) {
                Some(ciphertext) => ciphertext,
                None => {
                    let none: Vec<Vec<u8>> = Vec::new();
                    assert(packet::views(none@) =~= Seq::empty());
                    return none;
                },
            }
        } else {
            plaintext
        };
        assert(Some(final_bytes@) == outgoing_data(self@, sent, nonce@));
        assert(final_bytes.len() <= u64::MAX);
        let signed = SLPMsg::new_signed(
            SLPMsgData::Data { data: final_bytes, nonce },
            &self.secret_key,
        );
        assert(Some(signed@) == outgoing_msg(self@, sent, nonce@));
        let bytes = signed.to_vec();
        let packets = packet::packetize(
            &bytes,
            self.max_packet_length,
            &self.id,
            chunk_id,
            &self.secret_key,
        );
        assert(msg::msg_wf(signed@));
        assert(packets@.len() > 0 ==> packet::views(packets@).len() > 0);
        assert(owns_identity(self@) && packets@.len() > 0 ==> transmits(
            packet::views(packets@),
            self@,
            signed@,
            chunk_id,
        ));
        packets
    }

    /// Puts a received message behind those to be dealt with.
    pub fn enqueue(&mut self, msg: SLPMsg)
        ensures
            final(self)@ == msg_enqueued(old(self)@, msg@),
            final(self)@ == (Net { inbox: old(self)@.inbox.push(msg@), ..old(self)@ }),
    {
        self.inbox.push(msg);
        assert(self@.inbox =~= old(self)@.inbox.push(msg@));
    }

    /// Index of the first message that is dealt with now.
    fn find_ready(&self, discovered: bool) -> (i: usize)
        ensures
            i == first_ready(self@.inbox, discovered),
            i <= self.inbox@.len(),
    {
        let ghost all = msgs_view(self.inbox@);
        let mut i: usize = 0;
        assert(all.skip(0) =~= all);
        while i < self.inbox.len()
            invariant
                i <= self.inbox@.len(),
                all == msgs_view(self.inbox@),
                first_ready(all, discovered) == i + first_ready(all.skip(i as int), discovered),
            decreases self.inbox@.len() - i,
        {
            assert(all.skip(i as int)[0] == self.inbox@[i as int]@);
            let ready = match &self.inbox[i].body {
                SLPMsgData::NewGame { .. } => true,
                SLPMsgData::Data { .. } => discovered,
                SLPMsgData::Chunk { .. } => false,
            };
            if ready {
                return i;
            }
            assert(all.skip(i as int).skip(1) =~= all.skip(i + 1));
            i += 1;
        }
        i
    }

    /// Deals with the first received message that can be dealt with now: hands data
    /// to the application, and ends the session where a peer has started another
    /// game.
    pub fn pipe_incoming(&mut self, session: &mut Session, recvtime: u128)
        ensures
            (final(self)@, final(session)@) == incoming_handled(
                old(self)@,
                old(session)@,
                recvtime,
            ),
            ({
                let net = old(self)@;
                let i = first_ready(net.inbox, discovered(old(session)@));
                if i < net.inbox.len() {
                    let rest = Net { inbox: net.inbox.remove(i), ..net };
                    match net.inbox[i].body {
                        MsgBody::Data { data, nonce } => {
                            &&& final(self)@ == rest
                            &&& match incoming_data(net, data, nonce) {
                                Some((from, data)) => final(session)@ == (Play {
                                    incoming: old(session)@.incoming.push(
                                        Received { from, recvtime, data },
                                    ),
                                    ..old(session)@
                                }),
                                None => final(session)@ == old(session)@,
                            }
                        },
                        MsgBody::NewGame { newseed, .. } => if newseed == net.current {
                            &&& final(self)@ == (Net { peer: Some(newseed), ..rest })
                            &&& final(session)@ == old(session)@
                        } else {
                            &&& final(self)@ == rest
                            &&& final(session)@ == (Play {
                                state: SessionState::Ended,
                                ..old(session)@
                            })
                        },
                        MsgBody::Chunk { .. } => false,
                    }
                } else {
                    final(self)@ == net && final(session)@ == old(session)@
                }
            }),
    {
        let at: usize = self.find_ready(session.peer_discovered());
        if at >= self.inbox.len() {
            return;
        }
        let ghost net = self@;
        proof {
            lemma_first_ready(net.inbox, discovered(session@));
        }
        let received = self.inbox.remove(at);
        assert(self@.inbox =~= net.inbox.remove(at as int));
        match received.body {
            SLPMsgData::Data { data, nonce } => {
                let payload_bytes = if self.encryption_enabled {
                    self.keys.decrypt_data(data.as_slice(), &nonce)
                } else {
                    Some(data)
                };
                match payload_bytes {
                    Some(bytes) => match MsgPayload::from_bytes(bytes.as_slice()) {
                        Ok(payload) => {
                            session.deliver(Msg::new(payload.data, payload.from, recvtime));
                        },
                        Err(_) => {},
                    },
                    None => {},
                }
            },
            SLPMsgData::NewGame { newseed, .. } => {
                if crypto::same_bytes(&newseed, &self.current_seed_hash) {
                    self.peer_seed_hash = Some(newseed);
                } else {
                    session.set_state(SessionState::Ended);
                }
            },
            SLPMsgData::Chunk { .. } => {},
        }
    }
}

proof fn lemma_first_ready(inbox: Seq<SignedMsg>, discovered: bool)
    ensures
        0 <= first_ready(inbox, discovered) <= inbox.len(),
        first_ready(inbox, discovered) < inbox.len() ==> is_ready(
            inbox[first_ready(inbox, discovered)],
            discovered,
        ),
        forall|i: int|
            0 <= i < first_ready(inbox, discovered) ==> !is_ready(#[trigger] inbox[i], discovered),
    decreases inbox.len(),
{
    if inbox.len() > 0 && !is_ready(inbox[0], discovered) {
        lemma_first_ready(inbox.skip(1), discovered);
        assert forall|i: int| 0 <= i < first_ready(inbox, discovered) implies !is_ready(
            #[trigger] inbox[i],
            discovered,
        ) by {
            if i > 0 {
                assert(inbox.skip(1)[i - 1] == inbox[i]);
            }
        }
    }
}

// ---------------------------------------------------------------------------
// Laws
// ---------------------------------------------------------------------------
/// What an application sends, the application of a peer receives, from the sender:
/// where the session is not encrypted, and where it is and the receiver's keys open
/// what the sender's key in use has sealed.
pub proof fn law_message_gets_through(
    sender: Net,
    receiver: Net,
    data: Seq<u8>,
    nonce: Seq<u8>,
    sent: Seq<u8>,
)
    requires
        sender.id.len() == 32,
        crypto::valid_endpoint_id(sender.id),
        data.len() <= u64::MAX,
        sender.encrypted == receiver.encrypted,
        outgoing_data(sender, data, nonce) == Some(sent),
        sender.encrypted ==> opened(receiver.keys, nonce, sent) == Some(
            encoding::bin_payload(sender.id, data),
        ),
    ensures
        incoming_data(receiver, sent, nonce) == Some((sender.id, data)),
{
    msg::law_payload_roundtrip(sender.id, data, Seq::empty());
    let plaintext = encoding::bin_payload(sender.id, data);
    assert(plaintext + Seq::<u8>::empty() =~= plaintext);
}

/// Keys of peers need not rotate at the same moment: what the sender's key in use has
/// sealed is opened by a receiver that uses the same key, that has already rotated
/// it out, or that has not rotated it in yet, unless another of its keys opens it
/// before.
pub proof fn law_keys_may_lag(sender: Keys, receiver: Keys, nonce: Seq<u8>, ciphertext: Seq<u8>)
    requires
        opened_by(sender.current, nonce, ciphertext) is Some,
    ensures
        receiver.current == sender.current ==> opened(receiver, nonce, ciphertext) == opened_by(
            sender.current,
            nonce,
            ciphertext,
        ),
        receiver.previous == sender.current && opened_by(receiver.current, nonce, ciphertext)
            is None ==> opened(receiver, nonce, ciphertext) == opened_by(
            sender.current,
            nonce,
            ciphertext,
        ),
        receiver.next == sender.current && opened_by(receiver.current, nonce, ciphertext) is None
            && opened_by(receiver.previous, nonce, ciphertext) is None ==> opened(
            receiver,
            nonce,
            ciphertext,
        ) == opened_by(sender.current, nonce, ciphertext),
{
}

/// The message that `pipe_outgoing` makes arrives: received as one packet it is
/// handed on as it is, and received as fragments, in whatever order and any of them
/// repeated before the last missing one, it is handed on once that one is there.
pub proof fn law_outgoing_arrives(
    sender: Net,
    m: SignedMsg,
    assemblies: packet::Assemblies,
    packets: Seq<Seq<u8>>,
    chunk_id: u64,
    order: Seq<int>,
)
    requires
        m.body is Data,
        msg::msg_wf(m),
        msg::msg_verifies(m, sender.id),
        packet::is_arrival_of(order, packets.len() as int),
        !assemblies.contains_key((sender.id, chunk_id)),
        transmits(packets, sender, m, chunk_id),
    ensures
        packet::deliver(assemblies, packet::in_order(packets, order)) == (assemblies, seq![m]),
{
    let bytes = msg::msg_bytes(m);
    msg::law_msg_roundtrip(m, Seq::empty());
    assert(bytes + Seq::<u8>::empty() =~= bytes);
    let sent = packet::in_order(packets, order);
    if packets == seq![bytes] {
        assert(order[0] == 0);
        assert(order[order.len() - 1] == 0);
        assert(sent.len() == 1);
        assert(sent.last() == bytes);
        assert(sent.drop_last() =~= Seq::empty());
        reveal_with_fuel(packet::deliver, 2);
        assert(Seq::<SignedMsg>::empty().push(m) =~= seq![m]);
    } else {
        vstd::bytes::lemma_auto_spec_u32_to_from_le_bytes();
        packet::law_reassembly_with_repeats(
            assemblies,
            packets,
            bytes,
            packet::chunk_size(sender.max_packet_length),
            sender.id,
            chunk_id,
            order,
            m,
        );
    }
}

/// The announcement of a game arrives: a peer that receives the packet hands the
/// announcement on, and no fragments of other messages are lost by it.
pub proof fn law_announcement_arrives(net: Net, hash: Seq<u8>, assemblies: packet::Assemblies)
    requires
        announces(net, hash),
    ensures
        packet::received(assemblies, new_game_packet(net, hash)) == (
            assemblies,
            Some(new_game_msg(net, hash)),
        ),
{
    msg::law_msg_roundtrip(new_game_msg(net, hash), Seq::empty());
    assert(new_game_packet(net, hash) + Seq::<u8>::empty() =~= new_game_packet(net, hash));
}

/// How long a session lasts: the end of a game does not end it; another game does
/// before the handshake, and does not after it; once it has ended, it stays so.
pub proof fn law_session_lifetime(
    net: Net,
    session: Play,
    event: DolphinEvent,
    wire: Option<Seq<u8>>,
)
    ensures
        session.state == SessionState::Ended ==> event_handled(net, session, event, wire)
            == (net, SessionState::Ended, Seq::<Effect>::empty()),
        session.state != SessionState::Ended && event is GameEnd ==> event_handled(
            net,
            session,
            event,
            wire,
        ).1 == SessionState::Idle,
        session.state != SessionState::Ended ==> (event matches DolphinEvent::NewGame(meta)
            ==> {
            let hash = discovery::topic_hash(discovery::seed_text(meta.seed));
            let (next, state, todo) = event_handled(net, session, event, wire);
            &&& (state == SessionState::Ended) == (hash != net.current && !discovered(session))
            &&& state != SessionState::Ended ==> {
                &&& state == SessionState::InGame
                &&& next.current == hash
                &&& todo.len() > 0
                &&& todo[0] == Effect::Broadcast(new_game_packet(net, hash))
            }
        }),
{
}

/// In an encrypted session nothing is sent before there is a key, what the key seals
/// is what is sent, nothing is sent of what it cannot seal, and what no key opens is
/// not handed on.
pub proof fn law_encryption_is_used(
    net: Net,
    session: Play,
    data: Seq<u8>,
    nonce: Seq<u8>,
    chunk_id: u64,
)
    requires
        net.encrypted,
    ensures
        net.keys.current is None ==> !may_send(net, session),
        outgoing_data(net, data, nonce) == sealed(
            net.keys,
            nonce,
            encoding::bin_payload(net.id, data),
        ),
        sealed(net.keys, nonce, encoding::bin_payload(net.id, data)) is None ==> outgoing_packets(
            net,
            data,
            nonce,
            chunk_id,
        ) == Seq::<Seq<u8>>::empty(),
        opened(net.keys, nonce, data) is None ==> incoming_data(net, data, nonce) is None,
{
}

/// Peers that play the same game keep the session going, however long it takes.
pub proof fn law_matching_peers_go_on(net: Net, now: u128)
    requires
        peers_match(net) || !net.in_game,
    ensures
        !overdue(net, now),
{
}

/// When a message is sent: whenever the peers have announced the game that was started
/// last here, a peer has completed the handshake, a message waits, and the session is not
/// encrypted or has a key. Whether a game is in progress does not matter.
pub proof fn law_sent_exactly_if(net: Net, session: Play, in_game: bool)
    ensures
        may_send(net, session) <==> net.peer == Some(net.current) && session.connection
            == ConnectionState::Discovered && session.outgoing.len() > 0 && (!net.encrypted
            || net.keys.current is Some),
        may_send(net, session) ==> may_send(Net { in_game, ..net }, session),
        sent_one(net, session).outgoing == (if net.peer == Some(net.current) && session.connection
            == ConnectionState::Discovered && session.outgoing.len() > 0 && (!net.encrypted
            || net.keys.current is Some) {
            session.outgoing.skip(1)
        } else {
            session.outgoing
        }),
{
}

/// A session that is not encrypted sends between games as it does in a game: the end of a
/// game does not stop messages, and changes nothing in the packets that carry them.
pub proof fn law_sends_between_games(
    net: Net,
    session: Play,
    wire: Option<Seq<u8>>,
    data: Seq<u8>,
    nonce: Seq<u8>,
    chunk_id: u64,
)
    requires
        session.state != SessionState::Ended,
        !net.encrypted,
        net.peer == Some(net.current),
        session.connection == ConnectionState::Discovered,
        session.outgoing.len() > 0,
    ensures
        ({
            let (after, state, todo) = event_handled(net, session, DolphinEvent::GameEnd, wire);
            let idle = Play { state, ..session };
            &&& !after.in_game
            &&& todo.len() == 0
            &&& sent_one(net, session).outgoing == session.outgoing.skip(1)
            &&& sent_one(after, idle).outgoing == session.outgoing.skip(1)
            &&& outgoing_packets(after, data, nonce, chunk_id) == outgoing_packets(
                net,
                data,
                nonce,
                chunk_id,
            )
        }),
{
}

/// The session after a number of messages may have been sent.
pub open spec fn sent_many(net: Net, session: Play, n: nat) -> Play
    decreases n,
{
    if n == 0 {
        session
    } else {
        sent_many(net, sent_one(net, session), (n - 1) as nat)
    }
}

/// Messages leave in the order in which the application gave them, one at a time, none
/// left out: after some were sent, those behind them wait, and nothing else has changed.
pub proof fn law_messages_leave_in_order(net: Net, session: Play, n: nat)
    requires
        net.peer == Some(net.current),
        session.connection == ConnectionState::Discovered,
        !net.encrypted || net.keys.current is Some,
        n <= session.outgoing.len(),
    ensures
        sent_many(net, session, n) == (Play {
            outgoing: session.outgoing.subrange(n as int, session.outgoing.len() as int),
            ..session
        }),
    decreases n,
{
    let all = session.outgoing;
    if n == 0 {
        assert(all.subrange(0, all.len() as int) =~= all);
    } else {
        let next = sent_one(net, session);
        law_messages_leave_in_order(net, next, (n - 1) as nat);
        assert(next.outgoing.subrange(n - 1, next.outgoing.len() as int) =~= all.subrange(
            n as int,
            all.len() as int,
        ));
    }
}

/// What is on the wire of a session without encryption: a data message, signed with the
/// own key, whose bytes are the own identity, the length as eight bytes with the least
/// significant first, and the application's bytes.
pub proof fn law_plain_message_layout(net: Net, data: Seq<u8>, nonce: Seq<u8>)
    requires
        !net.encrypted,
        data.len() <= u64::MAX,
    ensures
        outgoing_msg(net, data, nonce) matches Some(m) && {
            &&& m.body matches MsgBody::Data { data: bytes, nonce: n } && {
                &&& n == nonce
                &&& bytes.len() == net.id.len() + 8 + data.len()
                &&& bytes.subrange(0, net.id.len() as int) == net.id
                &&& bytes.subrange(net.id.len() as int, (net.id.len() + 8) as int)
                    == vstd::bytes::spec_u64_to_le_bytes(data.len() as u64)
                &&& bytes.subrange((net.id.len() + 8) as int, bytes.len() as int) == data
            }
            &&& m.signature == crypto::signature_of(net.secret, msg::body_bytes(m.body))
        },
{
    vstd::bytes::lemma_auto_spec_u64_to_from_le_bytes();
    let bytes = encoding::bin_payload(net.id, data);
    assert(bytes.subrange(0, net.id.len() as int) =~= net.id);
    assert(bytes.subrange(net.id.len() as int, (net.id.len() + 8) as int)
        =~= vstd::bytes::spec_u64_to_le_bytes(data.len() as u64));
    assert(bytes.subrange((net.id.len() + 8) as int, bytes.len() as int) =~= data);
}

/// The length of the time that peers have to start the same game is what the set-up says,
/// in milliseconds: the session ends when a game is played here, the peers have not
/// announced it, and more time than that has passed since they last played the same.
pub proof fn law_ends_exactly_if(net: Net, session: Play, now: u128)
    requires
        session.state != SessionState::Ended,
    ensures
        ({
            let (next, after, goes_on) = ticked(net, session, now);
            let late = net.in_game && net.peer != Some(net.current) && now > net.matched_at
                + net.match_ms * 1_000_000;
            &&& goes_on == !late
            &&& after.state == (if late {
                SessionState::Ended
            } else {
                session.state
            })
            &&& after.outgoing == session.outgoing
            &&& after.incoming == session.incoming
            &&& after.connection == session.connection
            &&& after.closed == session.closed
            &&& net.peer == Some(net.current) || !net.in_game ==> next.matched_at == now
            &&& net.peer != Some(net.current) && net.in_game ==> next.matched_at
                == net.matched_at
            &&& next == (Net { matched_at: next.matched_at, ..net })
        }),
{
}

/// A session that goes on is the same however often the time is looked at: from the last
/// look with matching peers the whole time counts, and not from a later look.
pub proof fn law_time_counts_from_last_match(
    net: Net,
    session: Play,
    t: u128,
    hash: Seq<u8>,
    later: u128,
    now: u128,
)
    requires
        session.state != SessionState::Ended,
        net.peer == Some(net.current),
        hash != net.current,
        t <= later <= now,
        later <= t + net.match_ms * 1_000_000,
    ensures
        ({
            let (first, kept, _) = ticked(net, session, t);
            let entered = game_entered(first, hash);
            let (second, still, on) = ticked(entered, kept, later);
            let (_, last, goes_on) = ticked(second, still, now);
            &&& on
            &&& goes_on == (now <= t + net.match_ms * 1_000_000)
            &&& (last.state == SessionState::Ended) == !goes_on
        }),
{
}

/// What becomes of the keys: the first one is used at once; a later one waits, in place of
/// one that waits already, until it is rotated in, when the one in use becomes the
/// previous one. A rotation without a waiting key does nothing.
pub proof fn law_keys_follow_updates(keys: Keys, key: Seq<u8>, frames: int)
    ensures
        ({
            let given = keys_updated(keys, Update::Key { key, frames });
            let turned = keys_updated(keys, Update::Rotate);
            &&& keys.current is None ==> given.current == Some(key) && given.next == keys.next
            &&& keys.current is Some ==> given.current == keys.current && given.next == Some(key)
            &&& given.previous == keys.previous
            &&& keys.next is Some ==> turned.current == keys.next && turned.previous
                == keys.current && turned.next is None
            &&& keys.next is None ==> turned.current == keys.current && turned.previous
                == keys.previous && turned.next is None
        }),
{
}

/// Three keys in a row: once two have followed the first, each rotated in, the third is
/// used, the second is still at hand, and the first is gone.
pub proof fn law_two_keys_at_hand(a: Seq<u8>, b: Seq<u8>, c: Seq<u8>, f: int, g: int, h: int)
    ensures
        ({
            let one = keys_updated(no_keys(), Update::Key { key: a, frames: f });
            let two = keys_updated(
                keys_updated(one, Update::Key { key: b, frames: g }),
                Update::Rotate,
            );
            let three = keys_updated(
                keys_updated(two, Update::Key { key: c, frames: h }),
                Update::Rotate,
            );
            &&& one.current == Some(a) && one.previous is None && one.next is None
            &&& two.current == Some(b) && two.previous == Some(a) && two.next is None
            &&& three.current == Some(c) && three.previous == Some(b) && three.next is None
        }),
{
}

/// Which key opens a message: the one in use if it can, else the previous one if it can,
/// else the next one; a message is opened exactly if one of the three can.
pub proof fn law_keys_are_tried_in_order(keys: Keys, nonce: Seq<u8>, c: Seq<u8>)
    ensures
        ({
            let tried = |key: Option<Seq<u8>>|
                match key {
                    Some(k) => crypto::chacha_opened(k, nonce, c),
                    None => None,
                };
            &&& tried(keys.current) is Some ==> opened(keys, nonce, c) == tried(keys.current)
            &&& tried(keys.current) is None && tried(keys.previous) is Some ==> opened(keys, nonce, c)
                == tried(keys.previous)
            &&& tried(keys.current) is None && tried(keys.previous) is None ==> opened(keys, nonce, c)
                == tried(keys.next)
            &&& sealed(keys, nonce, c) == (match keys.current {
                Some(k) => crypto::chacha_sealed(k, nonce, c),
                None => None,
            })
        }),
{
}

/// What the start of a game does to a session that goes on: the game is the one played
/// here, without keys from before, and the peers count as playing it only if it is the one
/// they announced last; nothing else changes. The peers are told first; then the server
/// is asked under the new game with the session's name and the own address, unless only
/// the distributed hash table is used; then the session is published there, unless only
/// the server is used.
pub proof fn law_start_of_game(net: Net, session: Play, meta: GameMeta, wire: Option<Seq<u8>>)
    requires
        session.state != SessionState::Ended,
        session.connection == ConnectionState::Discovered || net.current == discovery::topic_hash(
            discovery::seed_text(meta.seed),
        ),
    ensures
        ({
            let topic = discovery::seed_text(meta.seed);
            let hash = discovery::topic_hash(topic);
            let (next, state, todo) = event_handled(
                net,
                session,
                DolphinEvent::NewGame(meta),
                wire,
            );
            let told = Effect::Broadcast(
                msg::msg_bytes(
                    msg::msg_signed(MsgBody::NewGame { from: net.id, newseed: hash }, net.secret),
                ),
            );
            let asked = Effect::Reannounce(
                discovery::announce_text(
                    net.bootstrap_url,
                    topic,
                    net.id,
                    Some(net.session),
                    wire,
                ),
            );
            let published = Effect::PublishDht(topic);
            &&& state == SessionState::InGame
            &&& next.current == hash
            &&& next.peer == (if net.peer == Some(hash) {
                Some(hash)
            } else {
                None::<Seq<u8>>
            })
            &&& next.in_game
            &&& next.keys == (Keys { previous: None, current: None, next: None })
            &&& next == (Net {
                current: next.current,
                peer: next.peer,
                in_game: next.in_game,
                keys: next.keys,
                ..net
            })
            &&& net.mode == DiscoveryMode::BootstrapDhtFallback ==> todo =~= seq![
                told,
                asked,
                published,
            ]
            &&& net.mode == DiscoveryMode::BootstrapOnly ==> todo =~= seq![told, asked]
            &&& net.mode == DiscoveryMode::DhtOnly ==> todo =~= seq![told, published]
        }),
{
}

/// What the end of a game does to a session that goes on: no game is played, no key is
/// kept, and nothing else changes; and a lost connection to the game changes nothing.
pub proof fn law_end_of_game(net: Net, session: Play, wire: Option<Seq<u8>>)
    requires
        session.state != SessionState::Ended,
    ensures
        ({
            let (next, state, todo) = event_handled(net, session, DolphinEvent::GameEnd, wire);
            &&& state == SessionState::Idle
            &&& todo.len() == 0
            &&& !next.in_game
            &&& next.keys == (Keys { previous: None, current: None, next: None })
            &&& next == (Net { in_game: next.in_game, keys: next.keys, ..net })
        }),
        event_handled(net, session, DolphinEvent::Disconnected, wire) == (
            net,
            session.state,
            Seq::<Effect>::empty(),
        ),
{
}

/// Starting another game before any peer completed the handshake ends the session, and
/// that is all that is done.
pub proof fn law_early_game_ends_session(
    net: Net,
    session: Play,
    meta: GameMeta,
    wire: Option<Seq<u8>>,
)
    requires
        session.state != SessionState::Ended,
        session.connection != ConnectionState::Discovered,
        net.current != discovery::topic_hash(discovery::seed_text(meta.seed)),
    ensures
        event_handled(net, session, DolphinEvent::NewGame(meta), wire) == (
            net,
            SessionState::Ended,
            seq![Effect::EndSession],
        ),
{
}

/// Which received message is dealt with: the oldest announcement of a game or, once a peer
/// has completed the handshake, the oldest of announcements and data; it alone leaves the
/// inbox, and where there is none, nothing happens.
pub proof fn law_oldest_ready_is_handled(
    net: Net,
    session: Play,
    recvtime: u128,
    i: int,
)
    requires
        0 <= i < net.inbox.len(),
        net.inbox[i].body is NewGame || session.connection == ConnectionState::Discovered
            && net.inbox[i].body is Data,
        forall|j: int|
            0 <= j < i ==> !((#[trigger] net.inbox[j]).body is NewGame || session.connection
                == ConnectionState::Discovered && net.inbox[j].body is Data),
    ensures
        incoming_handled(net, session, recvtime) == msg_handled(
            Net {
                inbox: net.inbox.subrange(0, i) + net.inbox.subrange(
                    i + 1,
                    net.inbox.len() as int,
                ),
                ..net
            },
            session,
            net.inbox[i],
            recvtime,
        ),
{
    let found = session.connection == ConnectionState::Discovered;
    lemma_first_ready(net.inbox, found);
    let k = first_ready(net.inbox, found);
    assert(is_ready(net.inbox[i], found));
    if i < k {
        assert(!is_ready(net.inbox[i], found));
    }
    if k < i {
        assert(!is_ready(net.inbox[k], found));
    }
    assert(net.inbox.remove(i) =~= net.inbox.subrange(0, i) + net.inbox.subrange(
        i + 1,
        net.inbox.len() as int,
    ));
}

/// Where no received message can be dealt with, nothing happens.
pub proof fn law_nothing_ready(net: Net, session: Play, recvtime: u128)
    requires
        forall|j: int|
            0 <= j < net.inbox.len() ==> !((#[trigger] net.inbox[j]).body is NewGame
                || session.connection == ConnectionState::Discovered && net.inbox[j].body is Data),
    ensures
        incoming_handled(net, session, recvtime) == (net, session),
{
    let found = session.connection == ConnectionState::Discovered;
    lemma_first_ready(net.inbox, found);
    let k = first_ready(net.inbox, found);
    if k < net.inbox.len() {
        assert(is_ready(net.inbox[k], found));
    }
}

/// What a received announcement does: the peers count as playing the game that is played
/// here, if it is the one announced; another one ends the session.
pub proof fn law_announcement_is_heeded(
    net: Net,
    session: Play,
    m: SignedMsg,
    recvtime: u128,
)
    requires
        m.body is NewGame,
    ensures
        ({
            let (next, after) = msg_handled(net, session, m, recvtime);
            let seed = m.body->newseed;
            &&& seed == net.current ==> next == (Net { peer: Some(net.current), ..net }) && after
                == session
            &&& seed != net.current ==> next == net && after == (Play {
                state: SessionState::Ended,
                ..session
            })
        }),
{
}

/// What received data does: in a session without encryption the application gets the bytes
/// behind those received before, with the sender that they name and the time; with
/// encryption it gets what the keys open; what cannot be read is dropped.
pub proof fn law_data_is_delivered(
    net: Net,
    session: Play,
    m: SignedMsg,
    recvtime: u128,
)
    requires
        m.body is Data,
    ensures
        ({
            let (next, after) = msg_handled(net, session, m, recvtime);
            let bytes = m.body->Data_data;
            let plain = if net.encrypted {
                opened(net.keys, m.body->Data_nonce, bytes)
            } else {
                Some(bytes)
            };
            &&& next == net
            &&& plain is None ==> after == session
            &&& plain matches Some(p) ==> match msg::payload_parsed(p) {
                Some((from, data)) => {
                    &&& after.incoming == session.incoming.push(
                        Received { from, recvtime, data },
                    )
                    &&& after == (Play { incoming: after.incoming, ..session })
                },
                None => after == session,
            }
        }),
{
}

/// A received message is dealt with after those that were received before it: where none of
/// these can be dealt with, it is, if it can be; and where one can, that one is dealt with
/// and the message stays behind the others.
pub proof fn law_received_messages_keep_order(
    net: Net,
    session: Play,
    m: SignedMsg,
    recvtime: u128,
)
    requires
        session.connection == ConnectionState::Discovered,
        m.body is NewGame || m.body is Data,
    ensures
        (forall|j: int| 0 <= j < net.inbox.len() ==> (#[trigger] net.inbox[j]).body is Chunk)
            ==> incoming_handled(msg_enqueued(net, m), session, recvtime) == msg_handled(
            net,
            session,
            m,
            recvtime,
        ),
        net.inbox.len() > 0 && !(net.inbox[0].body is Chunk) ==> {
            let (next, after) = incoming_handled(net, session, recvtime);
            incoming_handled(msg_enqueued(net, m), session, recvtime) == (
                msg_enqueued(next, m),
                after,
            )
        },
{
    let more = msg_enqueued(net, m);
    let n = net.inbox.len() as int;
    if forall|j: int| 0 <= j < n ==> (#[trigger] net.inbox[j]).body is Chunk {
        assert(more.inbox[n] == m);
        assert forall|j: int| 0 <= j < n implies !((#[trigger] more.inbox[j]).body is NewGame
            || session.connection == ConnectionState::Discovered && more.inbox[j].body is Data) by {
            assert(more.inbox[j] == net.inbox[j]);
        }
        law_oldest_ready_is_handled(more, session, recvtime, n);
        assert(more.inbox.subrange(0, n) + more.inbox.subrange(n + 1, more.inbox.len() as int)
            =~= net.inbox);
    }
    if n > 0 && !(net.inbox[0].body is Chunk) {
        assert(more.inbox[0] == net.inbox[0]);
        law_oldest_ready_is_handled(more, session, recvtime, 0);
        law_oldest_ready_is_handled(net, session, recvtime, 0);
        assert(more.inbox.subrange(0, 0) + more.inbox.subrange(1, more.inbox.len() as int) =~= (
        net.inbox.subrange(0, 0) + net.inbox.subrange(1, n)).push(m));
    }
}

} // verus!
