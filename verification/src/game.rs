//! Session API: how a session is configured, and what an application sees of it.

use vstd::prelude::*;
use vstd::string::*;

use crate::discovery;
use crate::dolphin::{DolphinEvent, GameMeta};
use crate::handshake::{self, HandshakeConfig, ParamRange, SSP_VERSION};
use crate::msg::{Msg, Received};

verus! {

/// Peer discovery strategy.
#[derive(Clone, Copy, Debug, PartialEq, Eq, Structural)]
pub enum DiscoveryMode {
    /// Bootstrap server first, distributed hash table as a fallback (default).
    BootstrapDhtFallback,
    /// Bootstrap server only.
    BootstrapOnly,
    /// Distributed hash table only.
    DhtOnly,
}

/// Timeouts for different network environments.
#[derive(Clone, Copy, Debug, PartialEq, Eq, Structural)]
pub enum NetworkProfile {
    /// For LAN or very stable, low-latency connections. Fails fast.
    Aggressive,
    /// The default. Balanced for typical internet play.
    Standard,
    /// High timeouts. Best for flaky WiFi or distant peers.
    Resilient,
}

impl Default for NetworkProfile {
    fn default() -> (profile: NetworkProfile)
        ensures
            profile == NetworkProfile::Standard,
    {
        NetworkProfile::Standard
    }
}

/// Network and state timeouts.
#[derive(Debug, Clone, Copy, PartialEq, Eq, Structural)]
pub struct TimeoutConfig {
    /// How long to wait for peers to start the same game, in milliseconds.
    pub newgame_match_ms: u64,
    /// How long a handshake may take, in seconds.
    pub handshake_secs: u64,
    /// How long a request to the bootstrap server may take, in milliseconds.
    pub http_bootstrap_ms: u64,
}

/// The timeouts of a profile.
pub open spec fn profile_timeouts(profile: NetworkProfile) -> TimeoutConfig {
    match profile {
        NetworkProfile::Aggressive => TimeoutConfig {
            newgame_match_ms: 500,
            handshake_secs: 2,
            http_bootstrap_ms: 1000,
        },
        NetworkProfile::Standard => TimeoutConfig {
            newgame_match_ms: 2000,
            handshake_secs: 8,
            http_bootstrap_ms: 4000,
        },
        NetworkProfile::Resilient => TimeoutConfig {
            newgame_match_ms: 4000,
            handshake_secs: 16,
            http_bootstrap_ms: 8000,
        },
    }
}

impl From<NetworkProfile> for TimeoutConfig {
    fn from(profile: NetworkProfile) -> (timeouts: TimeoutConfig) {
        match profile {
            NetworkProfile::Aggressive => TimeoutConfig {
                newgame_match_ms: 500,
                handshake_secs: 2,
                http_bootstrap_ms: 1000,
            },
            NetworkProfile::Standard => TimeoutConfig {
                newgame_match_ms: 2000,
                handshake_secs: 8,
                http_bootstrap_ms: 4000,
            },
            NetworkProfile::Resilient => TimeoutConfig {
                newgame_match_ms: 4000,
                handshake_secs: 16,
                http_bootstrap_ms: 8000,
            },
        }
    }
}

impl vstd::std_specs::convert::FromSpecImpl<NetworkProfile> for TimeoutConfig {
    open spec fn obeys_from_spec() -> bool {
        true
    }

    open spec fn from_spec(profile: NetworkProfile) -> TimeoutConfig {
        profile_timeouts(profile)
    }
}

impl Default for TimeoutConfig {
    fn default() -> (timeouts: TimeoutConfig)
        ensures
            timeouts == profile_timeouts(NetworkProfile::Standard),
    {
        TimeoutConfig::from(NetworkProfile::Standard)
    }
}

/// Why a session gives no more messages.
#[derive(Debug, Clone, Copy, PartialEq, Eq, Structural)]
pub enum SessionError {
    /// The session is over.
    Disconnected,
}

impl SessionError {
    /// The error in words.
    pub fn message(&self) -> (text: String)
        ensures
            text@ == "Session has been disconnected"@,
    {
        match self {
            SessionError::Disconnected => "Session has been disconnected".to_owned(),
        }
    }
}

/// State of a Slippi play-session.
#[derive(Copy, Clone, Debug, PartialEq, Eq, Structural)]
pub enum SessionState {
    /// A game is in progress.
    InGame,
    /// A game is not in progress.
    Idle,
    /// The session has ended (you or a peer joined a different game).
    Ended,
}

/// Peer connection and discovery state of a [`Session`].
#[derive(Copy, Clone, Debug, PartialEq, Eq, Structural)]
pub enum ConnectionState {
    /// A game was reported and discovery is running, but no peer has completed the
    /// handshake yet.
    Discovering,
    /// At least one peer has completed the handshake.
    Discovered,
}

/// The connection state that a number stands for.
pub open spec fn connection_state_of(value: u8) -> ConnectionState {
    if value == 1 {
        ConnectionState::Discovered
    } else {
        ConnectionState::Discovering
    }
}

impl ConnectionState {
    /// The connection state that a number stands for.
    pub fn from_u8(value: u8) -> (state: ConnectionState)
        ensures
            state == connection_state_of(value),
    {
        match value {
            1 => ConnectionState::Discovered,
            _ => ConnectionState::Discovering,
        }
    }

    /// The number that stands for a connection state.
    pub fn as_u8(self) -> (value: u8)
        ensures
            value == (if self == ConnectionState::Discovered {
                1u8
            } else {
                0u8
            }),
            connection_state_of(value) == self,
    {
        match self {
            ConnectionState::Discovering => 0,
            ConnectionState::Discovered => 1,
        }
    }
}

/// A play-session, which lasts across games: outgoing messages wait in it until
/// they are sent, incoming ones until the application takes them.
pub struct Session {
    session_state: SessionState,
    connection_state: u8,
    send_buf: Vec<Vec<u8>>,
    incoming: Vec<Msg>,
    closed: bool,
}

/// Mathematical value of a [`Session`].
#[verifier::ext_equal]
pub struct Play {
    /// What the session is doing.
    pub state: SessionState,
    /// Whether a peer was found.
    pub connection: ConnectionState,
    /// Messages to be sent, oldest first.
    pub outgoing: Seq<Seq<u8>>,
    /// Messages received, oldest first.
    pub incoming: Seq<Received>,
    /// Whether nothing more will be received.
    pub closed: bool,
}

/// Values of some outgoing messages.
pub open spec fn outgoing_view(v: Seq<Vec<u8>>) -> Seq<Seq<u8>> {
    Seq::new(v.len(), |i: int| v[i]@)
}

/// Values of some incoming messages.
pub open spec fn incoming_view(v: Seq<Msg>) -> Seq<Received> {
    Seq::new(v.len(), |i: int| v[i]@)
}

impl View for Session {
    type V = Play;

    closed spec fn view(&self) -> Play {
        Play {
            state: self.session_state,
            connection: connection_state_of(self.connection_state),
            outgoing: outgoing_view(self.send_buf@),
            incoming: incoming_view(self.incoming@),
            closed: self.closed,
        }
    }
}

/// A session in its first game, without peers.
pub open spec fn first_play() -> Play {
    Play {
        state: SessionState::InGame,
        connection: ConnectionState::Discovering,
        outgoing: Seq::empty(),
        incoming: Seq::empty(),
        closed: false,
    }
}

/// The connection state after it became known whether a peer has completed the
/// handshake and whether the session's topic was joined. It takes both, and what was
/// reached once stays.
pub open spec fn connection_updated(
    state: ConnectionState,
    peer_connected: bool,
    gossip_joined: bool,
) -> ConnectionState {
    if peer_connected && gossip_joined {
        ConnectionState::Discovered
    } else {
        state
    }
}

/// The session once the oldest received message was taken, and that message, if there is
/// one.
pub open spec fn message_taken(session: Play) -> (Play, Option<Received>) {
    if session.incoming.len() > 0 {
        (Play { incoming: session.incoming.skip(1), ..session }, Some(session.incoming[0]))
    } else {
        (session, None)
    }
}

/// The session with another message to be sent.
pub open spec fn message_queued(session: Play, data: Seq<u8>) -> Play {
    Play { outgoing: session.outgoing.push(data), ..session }
}

/// The session with another received message.
pub open spec fn message_delivered(session: Play, m: Received) -> Play {
    Play { incoming: session.incoming.push(m), ..session }
}

impl Session {
    /// A session in its first game, without peers.
    pub fn new() -> (session: Session)
        ensures
            session@ == first_play(),
    {
        let session = Session {
            session_state: SessionState::InGame,
            connection_state: ConnectionState::Discovering.as_u8(),
            send_buf: Vec::new(),
            incoming: Vec::new(),
            closed: false,
        };
        assert(session@ =~= first_play());
        session
    }

    /// Takes the oldest message that was received. Without one, tells whether more
    /// may come.
    pub fn try_recv(&mut self) -> (polled: Result<Option<Msg>, SessionError>)
        ensures
            final(self)@ == message_taken(old(self)@).0,
            message_taken(old(self)@).1 == (match polled {
                Ok(Some(msg)) => Some(msg@),
                _ => None,
            }),
            match polled {
                Ok(Some(msg)) => {
                    &&& old(self)@.incoming.len() > 0
                    &&& msg@ == old(self)@.incoming[0]
                    &&& final(self)@ == (Play {
                        incoming: old(self)@.incoming.skip(1),
                        ..old(self)@
                    })
                },
                Ok(None) => {
                    &&& old(self)@.incoming.len() == 0
                    &&& !old(self)@.closed
                    &&& final(self)@ == old(self)@
                },
                Err(SessionError::Disconnected) => {
                    &&& old(self)@.incoming.len() == 0
                    &&& old(self)@.closed
                    &&& final(self)@ == old(self)@
                },
            },
    {
        if self.incoming.len() > 0 {
            let msg = self.incoming.remove(0);
            assert(self@.incoming =~= old(self)@.incoming.skip(1));
            Ok(Some(msg))
        } else if self.closed {
            Err(SessionError::Disconnected)
        } else {
            Ok(None)
        }
    }

    /// Puts a message behind those to be sent.
    pub fn send(&mut self, data: Vec<u8>) -> (queued: bool)
        ensures
            queued,
            final(self)@ == message_queued(old(self)@, data@),
            final(self)@ == (Play { outgoing: old(self)@.outgoing.push(data@), ..old(self)@ }),
    {
        self.send_buf.push(data);
        assert(self@.outgoing =~= old(self)@.outgoing.push(data@));
        true
    }

    /// Whether messages are waiting to be sent.
    pub fn has_outgoing(&self) -> (yes: bool)
        ensures
            yes == (self@.outgoing.len() > 0),
    {
        self.send_buf.len() > 0
    }

    /// Takes the oldest message that is to be sent.
    pub(crate) fn take_outgoing(&mut self) -> (taken: Option<Vec<u8>>)
        ensures
            match taken {
                Some(data) => {
                    &&& old(self)@.outgoing.len() > 0
                    &&& data@ == old(self)@.outgoing[0]
                    &&& final(self)@ == (Play {
                        outgoing: old(self)@.outgoing.skip(1),
                        ..old(self)@
                    })
                },
                None => old(self)@.outgoing.len() == 0 && final(self)@ == old(self)@,
            },
    {
        if self.send_buf.len() == 0 {
            return None;
        }
        let data = self.send_buf.remove(0);
        assert(self@.outgoing =~= old(self)@.outgoing.skip(1));
        Some(data)
    }

    /// Puts a received message behind those to be taken.
    pub fn deliver(&mut self, msg: Msg)
        ensures
            final(self)@ == message_delivered(old(self)@, msg@),
            final(self)@ == (Play { incoming: old(self)@.incoming.push(msg@), ..old(self)@ }),
    {
        self.incoming.push(msg);
        assert(self@.incoming =~= old(self)@.incoming.push(msg@));
    }

    /// Receives nothing more.
    pub fn close(&mut self)
        ensures
            final(self)@ == (Play { closed: true, ..old(self)@ }),
    {
        self.closed = true;
    }

    /// Whether a peer was found.
    pub fn connection_state(&self) -> (state: ConnectionState)
        ensures
            state == self@.connection,
    {
        ConnectionState::from_u8(self.connection_state)
    }

    /// Whether a peer has completed the handshake.
    pub fn peer_discovered(&self) -> (found: bool)
        ensures
            found == (self@.connection == ConnectionState::Discovered),
    {
        self.connection_state() == ConnectionState::Discovered
    }

    /// Takes in whether a peer has completed the handshake and whether the session's
    /// topic was joined. Once both hold, a peer was found, for good.
    pub fn update_connection(&mut self, peer_connected: bool, gossip_joined: bool)
        ensures
            final(self)@ == (Play {
                connection: connection_updated(
                    old(self)@.connection,
                    peer_connected,
                    gossip_joined,
                ),
                ..old(self)@
            }),
            final(self)@.connection == ConnectionState::Discovered <==> old(self)@.connection
                == ConnectionState::Discovered || (peer_connected && gossip_joined),
    {
        if discovery::is_discovered(peer_connected, gossip_joined) {
            self.connection_state = ConnectionState::Discovered.as_u8();
        }
    }

    /// What the session is doing.
    pub fn state(&self) -> (state: SessionState)
        ensures
            state == self@.state,
    {
        self.session_state
    }

    /// Whether a game is in progress.
    pub fn in_game(&self) -> (yes: bool)
        ensures
            yes == (self@.state == SessionState::InGame),
    {
        self.state() == SessionState::InGame
    }

    /// Changes what the session is doing.
    pub(crate) fn set_state(&mut self, state: SessionState)
        ensures
            final(self)@ == (Play { state, ..old(self)@ }),
    {
        self.session_state = state;
    }
}

/// The connection state after several reports of whether a peer has completed the
/// handshake and whether the session's topic was joined.
pub open spec fn connection_after(state: ConnectionState, reports: Seq<(bool, bool)>) -> ConnectionState
    decreases reports.len(),
{
    if reports.len() == 0 {
        state
    } else {
        connection_updated(
            connection_after(state, reports.drop_last()),
            reports.last().0,
            reports.last().1,
        )
    }
}

/// A session that starts without peers has found one exactly if it was reported at
/// some time that a peer had completed the handshake and the session's topic was
/// joined; until then it goes on discovering, and afterwards it never does again.
pub proof fn law_discovered_for_good(reports: Seq<(bool, bool)>, more: Seq<(bool, bool)>)
    ensures
        connection_after(first_play().connection, reports) == ConnectionState::Discovered <==> exists|
            i: int,
        |
            0 <= i < reports.len() && (#[trigger] reports[i]).0 && reports[i].1,
        connection_after(first_play().connection, reports) == ConnectionState::Discovered
            ==> connection_after(first_play().connection, reports + more)
            == ConnectionState::Discovered,
    decreases reports.len() + more.len(),
{
    if more.len() > 0 {
        law_discovered_for_good(reports, more.drop_last());
        assert((reports + more).drop_last() =~= reports + more.drop_last());
        assert((reports + more).last() == more.last());
    } else {
        assert(reports + more =~= reports);
    }
    if reports.len() > 0 {
        let before = reports.drop_last();
        law_discovered_for_good(before, Seq::empty());
        assert(forall|i: int| 0 <= i < before.len() ==> before[i] == reports[i]);
        if exists|i: int| 0 <= i < reports.len() && (#[trigger] reports[i]).0 && reports[i].1 {
            let i = choose|i: int|
                0 <= i < reports.len() && (#[trigger] reports[i]).0 && reports[i].1;
            if i < before.len() {
                assert(before[i].0 && before[i].1);
            }
        }
        if connection_after(first_play().connection, before) == ConnectionState::Discovered {
            let i = choose|i: int| 0 <= i < before.len() && (#[trigger] before[i]).0 && before[i].1;
            assert(reports[i].0 && reports[i].1);
        }
    }
}

/// The game that an event starts, if it starts one. A session begins with the first.
pub fn first_game(event: DolphinEvent) -> (meta: Option<GameMeta>)
    ensures
        meta == (match event {
            DolphinEvent::NewGame(meta) => Some(meta),
            _ => None,
        }),
{
    match event {
        DolphinEvent::NewGame(meta) => Some(meta),
        _ => None,
    }
}

/// Relay server that is used where no other is named.
pub const DEFAULT_RELAY_URL: &'static str = "http://slippi-ssp.net:11015";

/// Bootstrap server that is used where no other is named.
pub const DEFAULT_BOOTSTRAP_URL: &'static str = "http://slippi-ssp.net:11008";

/// A text without the slashes at its end.
pub open spec fn without_slashes(s: Seq<char>) -> Seq<char>
    decreases s.len(),
{
    if s.len() > 0 && s.last() == '/' {
        without_slashes(s.drop_last())
    } else {
        s
    }
}

/// A text without the slashes at its end.
fn trim_slashes(url: &str) -> (trimmed: String)
    ensures
        trimmed@ == without_slashes(url@),
{
    let mut n: usize = url.unicode_len();
    assert(url@.take(n as int) =~= url@);
    while n > 0 && url.get_char(n - 1) == '/'
        invariant
            n <= url@.len(),
            without_slashes(url@.take(n as int)) == without_slashes(url@),
        decreases n,
    {
        assert(url@.take(n as int).drop_last() =~= url@.take(n - 1));
        n -= 1;
    }
    assert(url@.subrange(0, n as int) =~= url@.take(n as int));
    url.substring_char(0, n).to_owned()
}

/// Builder for configuring and starting a [`Session`].
pub struct SessionBuilder {
    /// What is accepted of a connection.
    pub handshake_config: HandshakeConfig,
    /// Bootstrap server, if one was named.
    pub bootstrap_url: Option<String>,
    /// Relay server, if one was named.
    pub relay_url: Option<String>,
    /// How peers are discovered.
    pub discovery_mode: DiscoveryMode,
    /// Timeouts.
    pub timeouts: TimeoutConfig,
    /// Longest packet.
    pub max_packet_length: usize,
    /// Where Dolphin runs.
    pub dolphin_host: String,
    /// Port of Dolphin.
    pub dolphin_port: u16,
}

/// What is accepted of a connection where nothing else is said.
pub open spec fn default_handshake() -> HandshakeConfig {
    HandshakeConfig {
        rollover: ParamRange { min: 60, preferred: 120, max: 240 },
        offset: ParamRange { min: 30, preferred: 60, max: 120 },
        slp_version_min: [0u8, 0u8, 0u8],
        slp_version_max: [255u8, 255u8, 255u8],
        ssp_version_min: [0u8, 0u8, 0u8],
        ssp_version_max: SSP_VERSION,
        encryption_enabled: true,
        accept_encrypted: true,
        accept_unencrypted: false,
    }
}

/// Whether a session may be encrypted.
pub open spec fn may_encrypt(config: HandshakeConfig) -> bool {
    config.encryption_enabled || config.accept_encrypted
}

/// Whether a builder has the default configuration.
pub open spec fn is_default_builder(b: SessionBuilder) -> bool {
    &&& b.handshake_config == default_handshake()
    &&& b.bootstrap_url is None
    &&& b.relay_url is None
    &&& b.discovery_mode == DiscoveryMode::BootstrapDhtFallback
    &&& b.timeouts == profile_timeouts(NetworkProfile::Standard)
    &&& b.max_packet_length == 32768
    &&& b.dolphin_host@ == "127.0.0.1"@
    &&& b.dolphin_port == 51441
}

impl Default for SessionBuilder {
    fn default() -> (builder: SessionBuilder)
        ensures
            is_default_builder(builder),
    {
        Self::new()
    }
}

/// A range that a builder sets: the preference is moved between the limits.
pub open spec fn built_range(min: u64, preferred: u64, max: u64) -> ParamRange {
    ParamRange { min, preferred: handshake::clamped(preferred, min, max), max }
}

impl SessionBuilder {
    /// A builder with the default configuration.
    pub fn new() -> (builder: SessionBuilder)
        ensures
            is_default_builder(builder),
    {
        let handshake_config = HandshakeConfig {
            rollover: ParamRange::new(60, 120, 240),
            offset: ParamRange::new(30, 60, 120),
            slp_version_min: [0, 0, 0],
            slp_version_max: [255, 255, 255],
            ssp_version_min: [0, 0, 0],
            ssp_version_max: SSP_VERSION,
            encryption_enabled: true,
            accept_encrypted: true,
            accept_unencrypted: false,
        };
        assert(handshake_config.slp_version_min =~= default_handshake().slp_version_min);
        assert(handshake_config.slp_version_max =~= default_handshake().slp_version_max);
        assert(handshake_config.ssp_version_min =~= default_handshake().ssp_version_min);
        Self {
            handshake_config,
            bootstrap_url: None,
            relay_url: None,
            discovery_mode: DiscoveryMode::BootstrapDhtFallback,
            timeouts: TimeoutConfig::default(),
            max_packet_length: 32768,
            dolphin_host: "127.0.0.1".to_owned(),
            dolphin_port: 51441,
        }
    }

    /// Sets where Dolphin runs.
    pub fn set_dolphin_host(self, host: &str) -> (builder: SessionBuilder)
        ensures
            builder == (SessionBuilder { dolphin_host: builder.dolphin_host, ..self }),
            builder.dolphin_host@ == host@,
    {
        let mut builder = self;
        builder.dolphin_host = host.to_owned();
        builder
    }

    /// Sets the port of Dolphin.
    pub fn set_dolphin_port(self, port: u16) -> (builder: SessionBuilder)
        ensures
            builder == (SessionBuilder { dolphin_port: port, ..self }),
    {
        let mut builder = self;
        builder.dolphin_port = port;
        builder
    }

    /// Enables or disables input-based encryption (default: enabled). Only sessions of
    /// that mode are offered and accepted.
    pub fn set_encryption(self, enabled: bool) -> (builder: SessionBuilder)
        ensures
            builder == (SessionBuilder {
                handshake_config: HandshakeConfig {
                    encryption_enabled: enabled,
                    accept_encrypted: enabled,
                    accept_unencrypted: !enabled,
                    ..self.handshake_config
                },
                ..self
            }),
    {
        let mut builder = self;
        builder.handshake_config.encryption_enabled = enabled;
        builder.handshake_config.accept_encrypted = enabled;
        builder.handshake_config.accept_unencrypted = !enabled;
        builder
    }

    /// Sets whether encrypted and unencrypted sessions are accepted. Where both are,
    /// the first peer decides; encrypted ones are offered wherever they are accepted.
    pub fn set_encryption_acceptance(self, encrypted: bool, unencrypted: bool) -> (builder:
        SessionBuilder)
        ensures
            builder == (SessionBuilder {
                handshake_config: HandshakeConfig {
                    encryption_enabled: encrypted,
                    accept_encrypted: encrypted,
                    accept_unencrypted: unencrypted,
                    ..self.handshake_config
                },
                ..self
            }),
    {
        let mut builder = self;
        builder.handshake_config.encryption_enabled = encrypted;
        builder.handshake_config.accept_encrypted = encrypted;
        builder.handshake_config.accept_unencrypted = unencrypted;
        builder
    }

    /// Sets the URL of the bootstrap server.
    pub fn set_bootstrap_url(self, url: &str) -> (builder: SessionBuilder)
        ensures
            builder == (SessionBuilder { bootstrap_url: builder.bootstrap_url, ..self }),
            builder.bootstrap_url matches Some(u) && u@ == without_slashes(url@),
    {
        let mut builder = self;
        builder.bootstrap_url = Some(trim_slashes(url));
        builder
    }

    /// Sets the URL of the relay server.
    pub fn set_relay_url(self, url: &str) -> (builder: SessionBuilder)
        ensures
            builder == (SessionBuilder { relay_url: builder.relay_url, ..self }),
            builder.relay_url matches Some(u) && u@ == without_slashes(url@),
    {
        let mut builder = self;
        builder.relay_url = Some(trim_slashes(url));
        builder
    }

    /// Sets how peers are discovered.
    pub fn set_discovery_mode(self, mode: DiscoveryMode) -> (builder: SessionBuilder)
        ensures
            builder == (SessionBuilder { discovery_mode: mode, ..self }),
    {
        let mut builder = self;
        builder.discovery_mode = mode;
        builder
    }

    /// Sets all timeouts to those of a profile.
    pub fn set_network_profile(self, profile: NetworkProfile) -> (builder: SessionBuilder)
        ensures
            builder == (SessionBuilder { timeouts: profile_timeouts(profile), ..self }),
    {
        let mut builder = self;
        builder.timeouts = TimeoutConfig::from(profile);
        builder
    }

    /// Sets timeouts one by one.
    pub fn set_timeouts(self, timeouts: TimeoutConfig) -> (builder: SessionBuilder)
        ensures
            builder == (SessionBuilder { timeouts, ..self }),
    {
        let mut builder = self;
        builder.timeouts = timeouts;
        builder
    }

    /// Sets the length of the longest packet.
    pub fn set_max_packet_length(self, len: usize) -> (builder: SessionBuilder)
        ensures
            builder == (SessionBuilder { max_packet_length: len, ..self }),
    {
        let mut builder = self;
        builder.max_packet_length = len;
        builder
    }

    /// Accepts only peers with Slippi versions in a range.
    pub fn set_slp_version_filter(self, min: [u8; 3], max: [u8; 3]) -> (builder: SessionBuilder)
        ensures
            builder == (SessionBuilder {
                handshake_config: HandshakeConfig {
                    slp_version_min: min,
                    slp_version_max: max,
                    ..self.handshake_config
                },
                ..self
            }),
    {
        let mut builder = self;
        builder.handshake_config.slp_version_min = min;
        builder.handshake_config.slp_version_max = max;
        builder
    }

    /// Sets the acceptable protocol versions (default: 0.0.0 to the own version).
    /// Both sides must agree; otherwise the handshake is rejected.
    pub fn set_ssp_version_range(self, min: [u8; 3], max: [u8; 3]) -> (builder: SessionBuilder)
        ensures
            builder == (SessionBuilder {
                handshake_config: HandshakeConfig {
                    ssp_version_min: min,
                    ssp_version_max: max,
                    ..self.handshake_config
                },
                ..self
            }),
    {
        let mut builder = self;
        builder.handshake_config.ssp_version_min = min;
        builder.handshake_config.ssp_version_max = max;
        builder
    }

    /// Sets the interval of key rotation and the rollback offset, not negotiable.
    pub fn set_key_rotation(self, interval: u64, rollback_offset: u64) -> (builder: SessionBuilder)
        ensures
            builder == (SessionBuilder {
                handshake_config: HandshakeConfig {
                    rollover: ParamRange { min: interval, preferred: interval, max: interval },
                    offset: ParamRange {
                        min: rollback_offset,
                        preferred: rollback_offset,
                        max: rollback_offset,
                    },
                    ..self.handshake_config
                },
                ..self
            }),
    {
        let mut builder = self;
        builder.handshake_config.rollover = ParamRange::new(interval, interval, interval);
        builder.handshake_config.offset =
        ParamRange::new(rollback_offset, rollback_offset, rollback_offset);
        builder
    }

    /// Sets the negotiable range of the key rotation interval.
    pub fn set_rollover_range(self, min: u64, preferred: u64, max: u64) -> (builder: SessionBuilder)
        requires
            min <= max,
        ensures
            builder == (SessionBuilder {
                handshake_config: HandshakeConfig {
                    rollover: built_range(min, preferred, max),
                    ..self.handshake_config
                },
                ..self
            }),
    {
        let mut builder = self;
        builder.handshake_config.rollover = ParamRange::new(min, preferred, max);
        builder
    }

    /// Sets the negotiable range of the rollback offset.
    pub fn set_offset_range(self, min: u64, preferred: u64, max: u64) -> (builder: SessionBuilder)
        requires
            min <= max,
        ensures
            builder == (SessionBuilder {
                handshake_config: HandshakeConfig {
                    offset: built_range(min, preferred, max),
                    ..self.handshake_config
                },
                ..self
            }),
    {
        let mut builder = self;
        builder.handshake_config.offset = ParamRange::new(min, preferred, max);
        builder
    }

    /// The configuration to start a session with: defaults stand in for what was
    /// not named, and the crypter, which there is wherever the session may be
    /// encrypted, starts with the preferred values.
    pub fn plan(self) -> (plan: SessionPlan)
        ensures
            plan.encryption_enabled == self.handshake_config.encryption_enabled,
            plan.handshake_config == self.handshake_config,
            plan.bootstrap_url@ == (match self.bootstrap_url {
                Some(url) => url@,
                None => DEFAULT_BOOTSTRAP_URL@,
            }),
            plan.relay_url@ == (match self.relay_url {
                Some(url) => url@,
                None => DEFAULT_RELAY_URL@,
            }),
            plan.discovery_mode == self.discovery_mode,
            plan.timeouts == self.timeouts,
            plan.max_packet_length == self.max_packet_length,
            plan.dolphin_host == self.dolphin_host,
            plan.dolphin_port == self.dolphin_port,
            plan.crypter == (if may_encrypt(self.handshake_config) {
                Some(
                    (
                        self.handshake_config.rollover.preferred,
                        self.handshake_config.offset.preferred,
                    ),
                )
            } else {
                None
            }),
    {
        let crypter = if self.handshake_config.encryption_enabled
            || self.handshake_config.accept_encrypted {
            Some(
                (self.handshake_config.rollover.preferred, self.handshake_config.offset.preferred),
            )
        } else {
            None
        };
        SessionPlan {
            encryption_enabled: self.handshake_config.encryption_enabled,
            handshake_config: self.handshake_config,
            bootstrap_url: match self.bootstrap_url {
                Some(url) => url,
                None => DEFAULT_BOOTSTRAP_URL.to_owned(),
            },
            relay_url: match self.relay_url {
                Some(url) => url,
                None => DEFAULT_RELAY_URL.to_owned(),
            },
            discovery_mode: self.discovery_mode,
            timeouts: self.timeouts,
            max_packet_length: self.max_packet_length,
            dolphin_host: self.dolphin_host,
            dolphin_port: self.dolphin_port,
            crypter,
        }
    }
}

/// The configuration to start a session with.
pub struct SessionPlan {
    /// Whether an encrypted session is offered.
    pub encryption_enabled: bool,
    /// What is accepted of a connection.
    pub handshake_config: HandshakeConfig,
    /// Bootstrap server.
    pub bootstrap_url: String,
    /// Relay server.
    pub relay_url: String,
    /// How peers are discovered.
    pub discovery_mode: DiscoveryMode,
    /// Timeouts.
    pub timeouts: TimeoutConfig,
    /// Longest packet.
    pub max_packet_length: usize,
    /// Where Dolphin runs.
    pub dolphin_host: String,
    /// Port of Dolphin.
    pub dolphin_port: u16,
    /// Rollover and offset of the crypter, if there is one.
    pub crypter: Option<(u64, u64)>,
}

/// Peers with the default configuration and the same versions connect.
pub proof fn law_defaults_connect(b: SessionBuilder, slp_version: [u8; 3])
    requires
        is_default_builder(b),
    ensures
        ({
            let host = handshake::HandshakeState {
                config: b.handshake_config,
                slp_version,
                ssp_version: SSP_VERSION,
                group_rollover: b.handshake_config.rollover,
                group_offset: b.handshake_config.offset,
                locked_encryption: None,
            };
            let offer = handshake::HandshakeOffer {
                config: b.handshake_config,
                slp_version,
                ssp_version: SSP_VERSION,
            };
            handshake::offer_verdict(host, offer) == Ok::<_, Seq<char>>(
                (b.handshake_config.rollover, b.handshake_config.offset),
            )
        }),
{
}

/// Trimming slashes twice is the same as once, and leaves no slash at the end.
pub proof fn law_trimmed_once(s: Seq<char>)
    ensures
        without_slashes(without_slashes(s)) == without_slashes(s),
        without_slashes(s).len() > 0 ==> without_slashes(s).last() != '/',
        without_slashes(s).is_prefix_of(s),
    decreases s.len(),
{
    if s.len() > 0 && s.last() == '/' {
        law_trimmed_once(s.drop_last());
    }
}

/// Trimming takes away slashes and nothing else.
pub proof fn law_only_slashes_are_trimmed(s: Seq<char>)
    ensures
        without_slashes(s).len() <= s.len(),
        s.subrange(0, without_slashes(s).len() as int) == without_slashes(s),
        forall|i: int| without_slashes(s).len() <= i < s.len() ==> #[trigger] s[i] == '/',
        s.len() > 0 && s.last() != '/' ==> without_slashes(s) == s,
    decreases s.len(),
{
    if s.len() > 0 && s.last() == '/' {
        law_only_slashes_are_trimmed(s.drop_last());
        assert forall|i: int| without_slashes(s).len() <= i < s.len() implies #[trigger] s[i]
            == '/' by {
            if i < s.len() - 1 {
                assert(s.drop_last()[i] == s[i]);
            }
        }
        assert(s.subrange(0, without_slashes(s).len() as int) =~= s.drop_last().subrange(
            0,
            without_slashes(s).len() as int,
        ));
    } else {
        assert(s.subrange(0, without_slashes(s).len() as int) =~= s);
    }
}

/// A range that a builder sets keeps its limits, and prefers the value between them that is
/// closest to the preference.
pub proof fn law_range_is_built(min: u64, preferred: u64, max: u64)
    requires
        min <= max,
    ensures
        built_range(min, preferred, max).min == min,
        built_range(min, preferred, max).max == max,
        preferred < min ==> built_range(min, preferred, max).preferred == min,
        min <= preferred <= max ==> built_range(min, preferred, max).preferred == preferred,
        max < preferred ==> built_range(min, preferred, max).preferred == max,
{
}

/// How the timeouts of the profiles relate: the default waits two seconds for peers to start
/// the same game, eight for a handshake and four for the bootstrap server; on a flaky network
/// all are twice as long, and on a stable one a quarter as long.
pub proof fn law_profiles(profile: NetworkProfile)
    ensures
        ({
            let t = profile_timeouts(profile);
            let quarters = match profile {
                NetworkProfile::Aggressive => 1int,
                NetworkProfile::Standard => 4int,
                NetworkProfile::Resilient => 8int,
            };
            &&& t.newgame_match_ms == 500 * quarters
            &&& t.handshake_secs == 2 * quarters
            &&& t.http_bootstrap_ms == 1000 * quarters
        }),
{
}

/// What a builder starts from: keys every two seconds at sixty frames a second, used a second
/// later, each negotiable from half as much to twice as much; any Slippi version, no protocol
/// version newer than the own; encrypted sessions only.
pub proof fn law_default_configuration(b: SessionBuilder)
    requires
        is_default_builder(b),
    ensures
        ({
            let c = b.handshake_config;
            &&& c.rollover.preferred == 2 * 60 && c.rollover.min == 60 && c.rollover.max == 4 * 60
            &&& c.offset.preferred == 60 && c.offset.min == 30 && c.offset.max == 2 * 60
            &&& forall|i: int| 0 <= i < 3 ==> #[trigger] c.slp_version_min[i] == 0
            &&& forall|i: int| 0 <= i < 3 ==> #[trigger] c.slp_version_max[i] == 255
            &&& forall|i: int| 0 <= i < 3 ==> #[trigger] c.ssp_version_min[i] == 0
            &&& c.ssp_version_max == SSP_VERSION
            &&& c.encryption_enabled && c.accept_encrypted && !c.accept_unencrypted
            &&& b.bootstrap_url is None && b.relay_url is None
            &&& b.discovery_mode == DiscoveryMode::BootstrapDhtFallback
            &&& b.max_packet_length == 32 * 1024
            &&& may_encrypt(c)
        }),
{
}

/// A session after a number of received messages may have been taken.
pub open spec fn messages_taken(session: Play, n: nat) -> Play
    decreases n,
{
    if n == 0 {
        session
    } else {
        messages_taken(message_taken(session).0, (n - 1) as nat)
    }
}

/// Received messages are taken in the order in which they came, each once: after some were
/// taken, the next is the one behind them; a message that comes is taken after all that
/// waited, and nothing is lost or changed by it.
pub proof fn law_messages_are_taken_in_order(session: Play, m: Received, n: nat)
    requires
        n <= session.incoming.len(),
    ensures
        message_taken(messages_taken(session, n)).1 == (if n < session.incoming.len() {
            Some(session.incoming[n as int])
        } else {
            None
        }),
        message_taken(messages_taken(message_delivered(session, m), n)).1 == (if n
            < session.incoming.len() {
            Some(session.incoming[n as int])
        } else {
            Some(m)
        }),
        messages_taken(session, n) == (Play {
            incoming: session.incoming.subrange(n as int, session.incoming.len() as int),
            ..session
        }),
    decreases n,
{
    lemma_messages_taken(session, n);
    let more = message_delivered(session, m);
    lemma_messages_taken(more, n);
    if n < session.incoming.len() {
        assert(more.incoming[n as int] == session.incoming[n as int]);
    }
}

proof fn lemma_messages_taken(session: Play, n: nat)
    requires
        n <= session.incoming.len(),
    ensures
        messages_taken(session, n) == (Play {
            incoming: session.incoming.subrange(n as int, session.incoming.len() as int),
            ..session
        }),
    decreases n,
{
    let all = session.incoming;
    if n == 0 {
        assert(all.subrange(0, all.len() as int) =~= all);
    } else {
        let next = message_taken(session).0;
        lemma_messages_taken(next, (n - 1) as nat);
        assert(next.incoming.subrange(n - 1, next.incoming.len() as int) =~= all.subrange(
            n as int,
            all.len() as int,
        ));
    }
}

/// A message that the application sends waits behind all that wait already, and these stay as
/// they are.
pub proof fn law_messages_are_queued_in_order(session: Play, data: Seq<u8>, i: int)
    requires
        0 <= i <= session.outgoing.len(),
    ensures
        ({
            let after = message_queued(session, data);
            &&& after.outgoing.len() == session.outgoing.len() + 1
            &&& after.outgoing[i] == (if i < session.outgoing.len() {
                session.outgoing[i]
            } else {
                data
            })
            &&& after == (Play { outgoing: after.outgoing, ..session })
        }),
{
}

} // verus!
