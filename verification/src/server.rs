//! The bootstrap server: tells peers that wait for the same game of each other.

use vstd::hash_map::StringHashMap;
use vstd::prelude::*;
use vstd::string::*;

use crate::encoding;
use crate::registry::{self, Entry, GameTable, PeerEntry};

verus! {

/// Nanoseconds in a second.
pub const NANOS_PER_SEC: u128 = 1_000_000_000;

/// Length of a game's hash as text.
pub const HASH_LEN: usize = 64;

/// Longest identity of a peer as text.
pub const MAX_PEER_ID_LEN: usize = 128;

/// Longest address of a peer as text.
pub const MAX_ADDR_LEN: usize = 8192;

/// What a server answers when it is asked whether it is there.
pub const HEALTH: &'static str = "ok";

/// The first value that is there, or else a default.
pub fn first_present<T: Copy>(values: &Vec<Option<T>>, default: T) -> (value: T)
    ensures
        (forall|i: int| 0 <= i < values@.len() ==> (#[trigger] values@[i]) is None) ==> value
            == default,
        forall|i: int|
            0 <= i < values@.len() && (#[trigger] values@[i]) is Some && (forall|j: int|
                0 <= j < i ==> (#[trigger] values@[j]) is None) ==> value == values@[i].unwrap(),
{
    let mut i: usize = 0;
    while i < values.len()
        invariant
            i <= values@.len(),
            forall|j: int| 0 <= j < i ==> (#[trigger] values@[j]) is None,
        decreases values@.len() - i,
    {
        match values[i] {
            Some(value) => {
                return value;
            },
            None => {},
        }
        i += 1;
    }
    default
}

/// How a bootstrap server is set up.
#[derive(Debug, Clone, Copy)]
pub struct ServerConfig {
    /// Port to listen on.
    pub port: u16,
    /// IPv4 address to listen on.
    pub bind: [u8; 4],
    /// Most peers kept for a game.
    pub max_peers: usize,
    /// Most games kept.
    pub max_games: usize,
    /// Seconds after which a peer that was not heard of again is dropped.
    pub ttl: u64,
    /// Whether requests are logged.
    pub verbose: bool,
}

/// The set-up that is used where nothing else is said.
pub open spec fn default_config() -> ServerConfig {
    ServerConfig {
        port: 5000,
        bind: [0u8, 0u8, 0u8, 0u8],
        max_peers: 20,
        max_games: 100_000,
        ttl: 480,
        verbose: false,
    }
}

impl Default for ServerConfig {
    fn default() -> (config: ServerConfig)
        ensures
            config == default_config(),
    {
        let config = ServerConfig {
            port: 5000,
            bind: [0, 0, 0, 0],
            max_peers: 20,
            max_games: 100_000,
            ttl: 480,
            verbose: false,
        };
        assert(config.bind =~= default_config().bind);
        config
    }
}

/// A peer's time to live, in nanoseconds.
pub open spec fn ttl_nanos(config: ServerConfig) -> u128 {
    (config.ttl * NANOS_PER_SEC) as u128
}

impl ServerConfig {
    /// A peer's time to live, in nanoseconds.
    pub fn peer_ttl(&self) -> (nanos: u128)
        ensures
            nanos == ttl_nanos(*self),
            nanos == self.ttl * NANOS_PER_SEC,
    {
        self.ttl as u128 * NANOS_PER_SEC
    }

    /// Address and port to listen on.
    pub fn socket_addr(&self) -> (addr: ([u8; 4], u16))
        ensures
            addr == (self.bind, self.port),
    {
        (self.bind, self.port)
    }
}

// ---------------------------------------------------------------------------
// Requests
// ---------------------------------------------------------------------------
/// Whether a text is a hash: 64 hexadecimal digits.
pub open spec fn is_hash(s: Seq<char>) -> bool {
    s.len() == HASH_LEN && forall|i: int| 0 <= i < s.len() ==> encoding::is_hex_digit(#[trigger] s[i])
}

/// Whether a text is made of letters, digits, `-` and `_`, and of at least one
/// and at most `max` of them.
pub open spec fn is_token(s: Seq<char>, max: int) -> bool {
    0 < s.len() <= max && forall|i: int|
        0 <= i < s.len() ==> encoding::is_url_safe_char(#[trigger] s[i])
}

/// Tells whether a text is a hash.
pub fn valid_hash(value: &str) -> (valid: bool)
    ensures
        valid == is_hash(value@),
{
    if !value.is_ascii() {
        proof {
            if is_hash(value@) {
                assert forall|i: int| 0 <= i < value@.len() implies (value@[i] as u32) < 0x80 by {
                    assert(encoding::is_hex_digit(value@[i]));
                }
                assert(vstd::utf8::is_ascii_chars(value@));
            }
        }
        return false;
    }
    let bytes = value.as_bytes();
    assert(bytes@ =~= Seq::new(value@.len(), |i: int| value@[i] as u8));
    if bytes.len() != HASH_LEN {
        return false;
    }
    let mut i: usize = 0;
    while i < bytes.len()
        invariant
            i <= bytes@.len(),
            value.is_ascii(),
            bytes@ == Seq::new(value@.len(), |j: int| value@[j] as u8),
            forall|j: int| 0 <= j < i ==> encoding::is_hex_digit(#[trigger] value@[j]),
        decreases bytes@.len() - i,
    {
        let b: u8 = bytes[i];
        assert(b == value@[i as int] as u8);
        assert((value@[i as int] as u32) < 0x80);
        let digit = (0x30 <= b && b <= 0x39) || (0x61 <= b && b <= 0x66) || (0x41 <= b && b
            <= 0x46);
        if !digit {
            assert(!encoding::is_hex_digit(value@[i as int]));
            return false;
        }
        i += 1;
    }
    true
}

/// Tells whether a text is made of letters, digits, `-` and `_`, and of at least
/// one and at most `max` of them.
fn valid_token(value: &str, max: usize) -> (valid: bool)
    ensures
        valid == is_token(value@, max as int),
{
    if !value.is_ascii() {
        proof {
            if is_token(value@, max as int) {
                assert forall|i: int| 0 <= i < value@.len() implies (value@[i] as u32) < 0x80 by {
                    assert(encoding::is_url_safe_char(value@[i]));
                }
                assert(vstd::utf8::is_ascii_chars(value@));
            }
        }
        return false;
    }
    let bytes = value.as_bytes();
    assert(bytes@ =~= Seq::new(value@.len(), |i: int| value@[i] as u8));
    if bytes.len() == 0 || bytes.len() > max {
        return false;
    }
    let mut i: usize = 0;
    while i < bytes.len()
        invariant
            i <= bytes@.len(),
            value.is_ascii(),
            bytes@ == Seq::new(value@.len(), |j: int| value@[j] as u8),
            forall|j: int| 0 <= j < i ==> encoding::is_url_safe_char(#[trigger] value@[j]),
        decreases bytes@.len() - i,
    {
        let b: u8 = bytes[i];
        assert(b == value@[i as int] as u8);
        assert((value@[i as int] as u32) < 0x80);
        let safe = (0x30 <= b && b <= 0x39) || (0x61 <= b && b <= 0x7a) || (0x41 <= b && b <= 0x5a)
            || b == 0x2d || b == 0x5f;
        if !safe {
            assert(!encoding::is_url_safe_char(value@[i as int]));
            return false;
        }
        i += 1;
    }
    true
}

/// Tells whether a text can be a peer's identity.
pub fn valid_peer_id(value: &str) -> (valid: bool)
    ensures
        valid == is_token(value@, MAX_PEER_ID_LEN as int),
{
    valid_token(value, MAX_PEER_ID_LEN)
}

/// Tells whether a text can be a peer's address.
pub fn valid_addr(value: &str) -> (valid: bool)
    ensures
        valid == is_token(value@, MAX_ADDR_LEN as int),
{
    valid_token(value, MAX_ADDR_LEN)
}

/// What a peer asks with.
#[derive(Debug)]
pub struct Params {
    /// The peer's identity as text.
    pub id: String,
    /// The session that the game belongs to, if the peer has one already.
    pub session: Option<String>,
    /// The peer's full address as text, if it sends one.
    pub addr: Option<String>,
}

/// What a peer is told.
#[derive(Debug)]
pub struct BootstrapResponse {
    /// The session that the game belongs to.
    pub session: String,
    /// Identities of the other peers.
    pub peers: Vec<String>,
    /// Full addresses of the other peers, as far as they are known.
    pub peer_addrs: Vec<String>,
}

/// The server's answer to a request.
#[derive(Debug)]
pub enum BootstrapReply {
    /// The other peers, and how many peers are registered for the game.
    Found { response: BootstrapResponse, registered: usize },
    /// The request is turned down, with an HTTP status.
    Rejected { status: u16, error: String },
}

/// Mathematical value of a [`BootstrapReply`].
pub enum Reply {
    /// The other peers.
    Found {
        session: Seq<char>,
        peers: Seq<Seq<char>>,
        peer_addrs: Seq<Seq<char>>,
        registered: int,
    },
    /// The request is turned down.
    Rejected { status: u16, error: Seq<char> },
}

/// Views of the strings in a sequence.
pub open spec fn texts(v: Seq<String>) -> Seq<Seq<char>> {
    Seq::new(v.len(), |i: int| v[i]@)
}

impl View for BootstrapReply {
    type V = Reply;

    open spec fn view(&self) -> Reply {
        match self {
            BootstrapReply::Found { response, registered } => Reply::Found {
                session: response.session@,
                peers: texts(response.peers@),
                peer_addrs: texts(response.peer_addrs@),
                registered: *registered as int,
            },
            BootstrapReply::Rejected { status, error } => Reply::Rejected {
                status: *status,
                error: error@,
            },
        }
    }
}

/// Everything that a bootstrap server knows.
#[verifier::ext_equal]
pub struct Registry {
    /// Peers by game.
    pub games: Map<Seq<char>, Seq<Entry>>,
    /// The game of each peer.
    pub peer_game: Map<Seq<char>, Seq<char>>,
    /// The session of each game that has one of its own.
    pub sessions: Map<Seq<char>, Seq<char>>,
    /// Well-formed requests so far.
    pub requests: int,
    /// Requests turned down so far.
    pub rejected: int,
}

/// Whether a peer was heard of less than `ttl` before `now`.
pub open spec fn is_fresh(e: Entry, now: u128, ttl: u128) -> bool {
    (if now >= e.last_seen {
        now - e.last_seen
    } else {
        0
    }) < ttl
}

/// The peers that were heard of recently enough.
pub open spec fn fresh_entries(s: Seq<Entry>, now: u128, ttl: u128) -> Seq<Entry> {
    s.filter(|e: Entry| is_fresh(e, now, ttl))
}

/// Whether a peer is listed and was not heard of recently enough.
pub open spec fn has_stale(s: Seq<Entry>, peer: Seq<char>, now: u128, ttl: u128) -> bool {
    exists|i: int| 0 <= i < s.len() && (#[trigger] s[i]).id == peer && !is_fresh(s[i], now, ttl)
}

/// What is left when stale peers of some games are dropped. A game without peers
/// goes, and its session with it.
pub open spec fn evicted(st: Registry, of: Set<Seq<char>>, now: u128, ttl: u128) -> Registry {
    Registry {
        games: Map::new(
            |g: Seq<char>|
                st.games.contains_key(g) && (of.contains(g) ==> fresh_entries(
                    st.games[g],
                    now,
                    ttl,
                ).len() > 0),
            |g: Seq<char>|
                if of.contains(g) {
                    fresh_entries(st.games[g], now, ttl)
                } else {
                    st.games[g]
                },
        ),
        peer_game: Map::new(
            |p: Seq<char>|
                st.peer_game.contains_key(p) && !(of.contains(st.peer_game[p])
                    && st.games.contains_key(st.peer_game[p]) && has_stale(
                    st.games[st.peer_game[p]],
                    p,
                    now,
                    ttl,
                )),
            |p: Seq<char>| st.peer_game[p],
        ),
        sessions: Map::new(
            |g: Seq<char>|
                st.sessions.contains_key(g) && !(of.contains(g) && st.games.contains_key(g)
                    && fresh_entries(st.games[g], now, ttl).len() == 0),
            |g: Seq<char>| st.sessions[g],
        ),
        ..st
    }
}

/// The peers other than one.
pub open spec fn others(s: Seq<Entry>, peer: Seq<char>) -> Seq<Entry> {
    s.filter(|e: Entry| e.id != peer)
}

/// What is left when a peer leaves the game that it waited for, because it now
/// waits for another one.
pub open spec fn peer_left(st: Registry, peer: Seq<char>, game: Seq<char>) -> Registry {
    if !st.peer_game.contains_key(peer) || st.peer_game[peer] == game {
        st
    } else {
        let previous = st.peer_game[peer];
        let rest = others(st.games[previous], peer);
        let gone = st.games.contains_key(previous) && rest.len() == 0;
        Registry {
            games: if !st.games.contains_key(previous) {
                st.games
            } else if gone {
                st.games.remove(previous)
            } else {
                st.games.insert(previous, rest)
            },
            sessions: if gone {
                st.sessions.remove(previous)
            } else {
                st.sessions
            },
            peer_game: st.peer_game.remove(peer),
            ..st
        }
    }
}

/// Index of the first entry of a peer; the number of entries if there is none.
pub open spec fn entry_at(s: Seq<Entry>, peer: Seq<char>) -> int
    decreases s.len(),
{
    if s.len() == 0 || s[0].id == peer {
        0
    } else {
        1 + entry_at(s.skip(1), peer)
    }
}

/// The peers of a game after one of them asked: its entry is renewed, or added
/// where there is room.
pub open spec fn upserted(s: Seq<Entry>, entry: Entry, capacity: int) -> Seq<Entry> {
    if entry_at(s, entry.id) < s.len() {
        s.update(entry_at(s, entry.id), entry)
    } else if s.len() < capacity {
        s.push(entry)
    } else {
        s
    }
}

/// The peers of a game; none if the game is not there.
pub open spec fn peers_of(st: Registry, game: Seq<char>) -> Seq<Entry> {
    if st.games.contains_key(game) {
        st.games[game]
    } else {
        Seq::empty()
    }
}

/// The session that a game belongs to: the one that a peer named for it, or else
/// the game itself.
pub open spec fn session_of(st: Registry, game: Seq<char>) -> Seq<char> {
    if st.sessions.contains_key(game) {
        st.sessions[game]
    } else {
        game
    }
}

/// View of an optional text.
pub open spec fn opt_text(s: Option<String>) -> Option<Seq<char>> {
    match s {
        Some(t) => Some(t@),
        None => None,
    }
}

/// Registers a peer for a game and answers it.
pub open spec fn peer_registered(
    st: Registry,
    max_peers: int,
    game: Seq<char>,
    id: Seq<char>,
    session: Option<Seq<char>>,
    addr: Option<Seq<char>>,
    now: u128,
) -> (Registry, Reply) {
    let named = match session {
        Some(s) => Registry { sessions: st.sessions.insert(game, s), ..st },
        None => st,
    };
    let left = peer_left(named, id, game);
    let peers = upserted(peers_of(left, game), Entry { id, addr, last_seen: now }, max_peers);
    let rest = others(peers, id);
    (
        Registry {
            games: left.games.insert(game, peers),
            peer_game: if entry_at(peers, id) < peers.len() {
                left.peer_game.insert(id, game)
            } else {
                left.peer_game
            },
            ..left
        },
        Reply::Found {
            session: session_of(named, game),
            peers: Seq::new(rest.len(), |i: int| rest[i].id),
            peer_addrs: rest.filter_map(|e: Entry| e.addr),
            registered: peers.len() as int,
        },
    )
}

/// Turns a request down.
pub open spec fn turned_down(st: Registry, status: u16, error: Seq<char>) -> (Registry, Reply) {
    (Registry { rejected: st.rejected + 1, ..st }, Reply::Rejected { status, error })
}

/// What a request does, and how it is answered. An ill-formed request is turned
/// down. Stale peers of the game are dropped first; where the server is full, those
/// of all games are, and a request for a further game is turned down only if that
/// made no room.
pub open spec fn bootstrap_handled(
    st: Registry,
    config: ServerConfig,
    game: Seq<char>,
    id: Seq<char>,
    session: Option<Seq<char>>,
    addr: Option<Seq<char>>,
    now: u128,
) -> (Registry, Reply) {
    if !is_hash(game) || !is_token(id, MAX_PEER_ID_LEN as int) {
        turned_down(st, 400, "invalid request"@)
    } else if session is Some && !is_hash(session.unwrap()) {
        turned_down(st, 400, "invalid session"@)
    } else if addr is Some && !is_token(addr.unwrap(), MAX_ADDR_LEN as int) {
        turned_down(st, 400, "invalid address"@)
    } else {
        let ttl = ttl_nanos(config);
        let counted = Registry { requests: st.requests + 1, ..st };
        let first = evicted(counted, set![game], now, ttl);
        let full = |r: Registry| !r.games.contains_key(game) && r.games.len() >= config.max_games;
        let ready = if full(first) {
            evicted(first, first.games.dom(), now, ttl)
        } else {
            first
        };
        if full(first) && full(ready) {
            turned_down(ready, 503, "server full"@)
        } else {
            peer_registered(ready, config.max_peers as int, game, id, session, addr, now)
        }
    }
}

/// What holds of the registry at all times: a game lists no peer twice, a peer is
/// listed for exactly the game that it waits for, and only games that are there
/// have a session.
pub open spec fn registry_inv(st: Registry) -> bool {
    &&& st.games.dom().finite()
    &&& st.peer_game.dom().finite()
    &&& forall|g: Seq<char>, i: int, j: int|
        st.games.contains_key(g) && 0 <= i < j < st.games[g].len() ==> (
        #[trigger] st.games[g][i]).id != (#[trigger] st.games[g][j]).id
    &&& forall|g: Seq<char>, i: int|
        st.games.contains_key(g) && 0 <= i < st.games[g].len() ==> st.peer_game.contains_key(
            (#[trigger] st.games[g][i]).id,
        ) && st.peer_game[st.games[g][i].id] == g
    &&& forall|p: Seq<char>| #[trigger]
        st.peer_game.contains_key(p) ==> st.games.contains_key(st.peer_game[p]) && entry_at(
            st.games[st.peer_game[p]],
            p,
        ) < st.games[st.peer_game[p]].len()
    &&& forall|g: Seq<char>| #[trigger] st.sessions.contains_key(g) ==> st.games.contains_key(g)
}

proof fn lemma_entry_at(s: Seq<Entry>, peer: Seq<char>)
    ensures
        0 <= entry_at(s, peer) <= s.len(),
        entry_at(s, peer) < s.len() ==> s[entry_at(s, peer)].id == peer,
        forall|i: int| 0 <= i < entry_at(s, peer) ==> (#[trigger] s[i]).id != peer,
    decreases s.len(),
{
    if s.len() > 0 && s[0].id != peer {
        lemma_entry_at(s.skip(1), peer);
        assert forall|i: int| 0 <= i < entry_at(s, peer) implies (#[trigger] s[i]).id != peer by {
            if i > 0 {
                assert(s.skip(1)[i - 1] == s[i]);
            }
        }
    }
}

proof fn lemma_entry_listed(s: Seq<Entry>, peer: Seq<char>, i: int)
    requires
        0 <= i < s.len(),
        s[i].id == peer,
    ensures
        entry_at(s, peer) <= i,
{
    lemma_entry_at(s, peer);
}

/// Filtering keeps order: the kept entries come from increasing positions.
proof fn lemma_filter_source(s: Seq<Entry>, pred: spec_fn(Entry) -> bool) -> (source: Seq<int>)
    ensures
        source.len() == s.filter(pred).len(),
        forall|i: int|
            0 <= i < source.len() ==> 0 <= #[trigger] source[i] < s.len() && s.filter(pred)[i]
                == s[source[i]] && pred(s[source[i]]),
        forall|i: int, j: int|
            0 <= i < j < source.len() ==> #[trigger] source[i] < #[trigger] source[j],
        forall|k: int| 0 <= k < s.len() && pred(#[trigger] s[k]) ==> source.contains(k),
    decreases s.len(),
{
    reveal(Seq::filter);
    if s.len() == 0 {
        Seq::empty()
    } else {
        let rest = lemma_filter_source(s.drop_last(), pred);
        let n = s.len() - 1;
        if pred(s.last()) {
            let source = rest.push(n);
            assert forall|k: int| 0 <= k < s.len() && pred(#[trigger] s[k]) implies source.contains(
                k,
            ) by {
                if k == n {
                    assert(source[rest.len() as int] == n);
                } else {
                    assert(s.drop_last()[k] == s[k]);
                    let j = choose|j: int| 0 <= j < rest.len() && rest[j] == k;
                    assert(source[j] == k);
                }
            }
            source
        } else {
            assert forall|k: int| 0 <= k < s.len() && pred(#[trigger] s[k]) implies rest.contains(
                k,
            ) by {
                assert(s.drop_last()[k] == s[k]);
            }
            rest
        }
    }
}

/// Entries of distinct peers stay so when some are dropped, and a peer is listed
/// afterwards exactly if one of its entries is kept.
proof fn lemma_filtered_bucket(s: Seq<Entry>, pred: spec_fn(Entry) -> bool)
    requires
        forall|i: int, j: int| 0 <= i < j < s.len() ==> (#[trigger] s[i]).id != (#[trigger] s[j]).id,
    ensures
        forall|i: int, j: int|
            0 <= i < j < s.filter(pred).len() ==> (#[trigger] s.filter(pred)[i]).id != (
            #[trigger] s.filter(pred)[j]).id,
        forall|i: int|
            0 <= i < s.filter(pred).len() ==> pred(#[trigger] s.filter(pred)[i]) && exists|k: int|
                0 <= k < s.len() && s[k] == s.filter(pred)[i],
        forall|k: int|
            0 <= k < s.len() && pred(#[trigger] s[k]) ==> exists|i: int|
                0 <= i < s.filter(pred).len() && s.filter(pred)[i] == s[k],
{
    let f = s.filter(pred);
    let source = lemma_filter_source(s, pred);
    assert forall|i: int, j: int| 0 <= i < j < f.len() implies (#[trigger] f[i]).id != (
    #[trigger] f[j]).id by {
        assert(source[i] < source[j]);
    }
    assert forall|i: int| 0 <= i < f.len() implies pred(#[trigger] f[i]) && exists|k: int|
        0 <= k < s.len() && s[k] == f[i] by {
        assert(s[source[i]] == f[i]);
    }
    assert forall|k: int| 0 <= k < s.len() && pred(#[trigger] s[k]) implies exists|i: int|
        0 <= i < f.len() && f[i] == s[k] by {
        let i = choose|i: int| 0 <= i < source.len() && source[i] == k;
        assert(f[i] == s[k]);
    }
}

proof fn lemma_inv_evicted(st: Registry, of: Set<Seq<char>>, now: u128, ttl: u128)
    requires
        registry_inv(st),
    ensures
        registry_inv(evicted(st, of, now, ttl)),
{
    let next = evicted(st, of, now, ttl);
    let pred = |e: Entry| is_fresh(e, now, ttl);
    assert(next.games.dom().subset_of(st.games.dom()));
    assert(next.peer_game.dom().subset_of(st.peer_game.dom()));
    vstd::set_lib::lemma_set_subset_finite(st.games.dom(), next.games.dom());
    vstd::set_lib::lemma_set_subset_finite(st.peer_game.dom(), next.peer_game.dom());
    assert forall|g: Seq<char>, i: int, j: int|
        next.games.contains_key(g) && 0 <= i < j < next.games[g].len() implies (
    #[trigger] next.games[g][i]).id != (#[trigger] next.games[g][j]).id by {
        lemma_filtered_bucket(st.games[g], pred);
    }
    assert forall|g: Seq<char>, i: int|
        next.games.contains_key(g) && 0 <= i < next.games[g].len() implies next.peer_game.contains_key(
        (#[trigger] next.games[g][i]).id,
    ) && next.peer_game[next.games[g][i].id] == g by {
        let p = next.games[g][i].id;
        if of.contains(g) {
            lemma_filtered_bucket(st.games[g], pred);
            let k = choose|k: int| 0 <= k < st.games[g].len() && st.games[g][k] == next.games[g][i];
            assert(st.games[g][k].id == p);
            if has_stale(st.games[g], p, now, ttl) {
                let m = choose|m: int|
                    0 <= m < st.games[g].len() && (#[trigger] st.games[g][m]).id == p && !is_fresh(
                        st.games[g][m],
                        now,
                        ttl,
                    );
                assert(m == k);
            }
        }
    }
    assert forall|p: Seq<char>| #[trigger] next.peer_game.contains_key(p) implies next.games.contains_key(
        next.peer_game[p],
    ) && entry_at(next.games[next.peer_game[p]], p) < next.games[next.peer_game[p]].len() by {
        let g = st.peer_game[p];
        assert(st.peer_game.contains_key(p));
        let s = st.games[g];
        lemma_entry_at(s, p);
        let k = entry_at(s, p);
        if of.contains(g) {
            lemma_filtered_bucket(s, pred);
            assert(is_fresh(s[k], now, ttl));
            assert(pred(s[k]));
            let i = choose|i: int| 0 <= i < s.filter(pred).len() && s.filter(pred)[i] == s[k];
            lemma_entry_listed(s.filter(pred), p, i);
        }
    }
}

proof fn lemma_inv_left(st: Registry, peer: Seq<char>, game: Seq<char>)
    requires
        registry_inv(st),
    ensures
        registry_inv(peer_left(st, peer, game)),
        peer_left(st, peer, game).peer_game.contains_key(peer) ==> peer_left(
            st,
            peer,
            game,
        ).peer_game[peer] == game,
        st.games.contains_key(game) ==> peer_left(st, peer, game).games.contains_key(game),
        peers_of(peer_left(st, peer, game), game) == peers_of(st, game),
        peer_left(st, peer, game).games.len() <= st.games.len(),
{
    if st.peer_game.contains_key(peer) && st.peer_game[peer] != game {
        let next = peer_left(st, peer, game);
        let previous = st.peer_game[peer];
        let s = st.games[previous];
        let pred = |e: Entry| e.id != peer;
        lemma_filtered_bucket(s, pred);
        assert(st.games.contains_key(previous));
        assert forall|g: Seq<char>, i: int|
            next.games.contains_key(g) && 0 <= i
                < next.games[g].len() implies next.peer_game.contains_key(
            (#[trigger] next.games[g][i]).id,
        ) && next.peer_game[next.games[g][i].id] == g by {
            if g == previous {
                let k = choose|k: int| 0 <= k < s.len() && s[k] == next.games[g][i];
                assert(st.games[previous][k].id == next.games[g][i].id);
            } else {
                assert(st.games[g][i].id == next.games[g][i].id);
            }
        }
        assert forall|p: Seq<char>| #[trigger]
            next.peer_game.contains_key(p) implies next.games.contains_key(next.peer_game[p])
            && entry_at(next.games[next.peer_game[p]], p) < next.games[next.peer_game[p]].len() by {
            assert(st.peer_game.contains_key(p));
            if st.peer_game[p] == previous {
                lemma_entry_at(s, p);
                let k = entry_at(s, p);
                assert(pred(s[k]));
                let i = choose|i: int| 0 <= i < s.filter(pred).len() && s.filter(pred)[i] == s[k];
                lemma_entry_listed(s.filter(pred), p, i);
            }
        }
        assert(next.games.dom().subset_of(st.games.dom()));
        vstd::set_lib::lemma_len_subset(next.games.dom(), st.games.dom());
    }
}

proof fn lemma_upserted(s: Seq<Entry>, entry: Entry, capacity: int)
    requires
        forall|i: int, j: int| 0 <= i < j < s.len() ==> (#[trigger] s[i]).id != (#[trigger] s[j]).id,
    ensures
        ({
            let t = upserted(s, entry, capacity);
            &&& forall|i: int, j: int|
                0 <= i < j < t.len() ==> (#[trigger] t[i]).id != (#[trigger] t[j]).id
            &&& forall|i: int|
                0 <= i < t.len() ==> (#[trigger] t[i]).id == entry.id || exists|k: int|
                    0 <= k < s.len() && s[k] == t[i]
            &&& forall|k: int| 0 <= k < s.len() ==> entry_at(t, (#[trigger] s[k]).id) < t.len()
            &&& t.len() <= s.len() || t.len() <= capacity
            &&& (exists|i: int| 0 <= i < t.len() && (#[trigger] t[i]).id == entry.id) ==> entry_at(
                t,
                entry.id,
            ) < t.len()
        }),
{
    let t = upserted(s, entry, capacity);
    lemma_entry_at(s, entry.id);
    assert forall|k: int| 0 <= k < s.len() implies entry_at(t, (#[trigger] s[k]).id) < t.len() by {
        assert(t[k].id == s[k].id);
        lemma_entry_listed(t, s[k].id, k);
    }
    assert forall|i: int| 0 <= i < t.len() implies (#[trigger] t[i]).id == entry.id || exists|k: int|
        0 <= k < s.len() && s[k] == t[i] by {
        if i < s.len() && t[i] == s[i] {
            assert(s[i] == t[i]);
        }
    }
    assert forall|i: int, j: int| 0 <= i < j < t.len() implies (#[trigger] t[i]).id != (
    #[trigger] t[j]).id by {
        if j < s.len() {
            assert(t[i].id == s[i].id && t[j].id == s[j].id);
        } else {
            assert(s[i].id != entry.id);
        }
    }
    if exists|i: int| 0 <= i < t.len() && (#[trigger] t[i]).id == entry.id {
        let i = choose|i: int| 0 <= i < t.len() && (#[trigger] t[i]).id == entry.id;
        lemma_entry_listed(t, entry.id, i);
    }
}

proof fn lemma_inv_registered(
    st: Registry,
    max_peers: int,
    game: Seq<char>,
    id: Seq<char>,
    session: Option<Seq<char>>,
    addr: Option<Seq<char>>,
    now: u128,
)
    requires
        registry_inv(st),
    ensures
        registry_inv(peer_registered(st, max_peers, game, id, session, addr, now).0),
{
    let named = match session {
        Some(s) => Registry { sessions: st.sessions.insert(game, s), ..st },
        None => st,
    };
    let base = Registry { sessions: Map::empty(), ..named };
    assert(registry_inv(base));
    lemma_inv_left(base, id, game);
    let left = peer_left(named, id, game);
    let bare = peer_left(base, id, game);
    assert(left.games == bare.games && left.peer_game == bare.peer_game);
    let s = peers_of(left, game);
    let entry = Entry { id, addr, last_seen: now };
    let peers = upserted(s, entry, max_peers);
    lemma_upserted(s, entry, max_peers);
    lemma_entry_at(peers, id);
    let next = peer_registered(st, max_peers, game, id, session, addr, now).0;
    assert forall|g: Seq<char>, i: int|
        next.games.contains_key(g) && 0 <= i < next.games[g].len() implies next.peer_game.contains_key(
        (#[trigger] next.games[g][i]).id,
    ) && next.peer_game[next.games[g][i].id] == g by {
        let p = next.games[g][i].id;
        if g == game {
            if p == id {
                lemma_entry_listed(peers, id, i);
            } else {
                let k = choose|k: int| 0 <= k < s.len() && s[k] == peers[i];
                assert(left.games[game][k].id == p);
            }
        } else {
            assert(left.games[g][i].id == p);
        }
    }
    assert forall|p: Seq<char>| #[trigger] next.peer_game.contains_key(p) implies next.games.contains_key(
        next.peer_game[p],
    ) && entry_at(next.games[next.peer_game[p]], p) < next.games[next.peer_game[p]].len() by {
        if next.peer_game[p] == game && p != id {
            assert(left.peer_game.contains_key(p));
            lemma_entry_at(s, p);
            assert(s[entry_at(s, p)].id == p);
        } else if p == id {
            if !(entry_at(peers, id) < peers.len()) {
                assert(left.peer_game.contains_key(p));
                lemma_entry_at(s, p);
                assert(s[entry_at(s, p)].id == p);
            }
        } else {
            assert(left.peer_game.contains_key(p));
        }
    }
    assert forall|g: Seq<char>| #[trigger] next.sessions.contains_key(g) implies next.games.contains_key(
        g,
    ) by {
        assert(named.sessions.contains_key(g));
        if g != game {
            assert(st.sessions.contains_key(g));
            assert(st.games.contains_key(g));
        }
    }
}

/// Whatever is asked, the registry stays sound: no game lists a peer twice, no
/// peer is listed for two games, and no session outlives its game.
pub proof fn law_registry_stays_sound(
    st: Registry,
    config: ServerConfig,
    game: Seq<char>,
    id: Seq<char>,
    session: Option<Seq<char>>,
    addr: Option<Seq<char>>,
    now: u128,
)
    requires
        registry_inv(st),
    ensures
        registry_inv(bootstrap_handled(st, config, game, id, session, addr, now).0),
{
    let ttl = ttl_nanos(config);
    let counted = Registry { requests: st.requests + 1, ..st };
    lemma_inv_evicted(counted, set![game], now, ttl);
    let first = evicted(counted, set![game], now, ttl);
    lemma_inv_evicted(first, first.games.dom(), now, ttl);
    let all = evicted(first, first.games.dom(), now, ttl);
    lemma_inv_registered(first, config.max_peers as int, game, id, session, addr, now);
    lemma_inv_registered(all, config.max_peers as int, game, id, session, addr, now);
}

/// No peer waits for two games at once.
pub proof fn law_peer_in_one_game(st: Registry, g: Seq<char>, h: Seq<char>, i: int, j: int)
    requires
        registry_inv(st),
        st.games.contains_key(g),
        st.games.contains_key(h),
        0 <= i < st.games[g].len(),
        0 <= j < st.games[h].len(),
        st.games[g][i].id == st.games[h][j].id,
    ensures
        g == h,
        i == j,
{
}

// ---------------------------------------------------------------------------
// The server
// ---------------------------------------------------------------------------
/// Everything that a bootstrap server knows.
pub struct BootstrapState {
    games: GameTable,
    peer_game: StringHashMap<String>,
    game_session: StringHashMap<String>,
    requests: u64,
    rejected: u64,
}

impl View for BootstrapState {
    type V = Registry;

    closed spec fn view(&self) -> Registry {
        Registry {
            games: self.games@,
            peer_game: self.peer_game@.map_values(|s: String| s@),
            sessions: self.game_session@.map_values(|s: String| s@),
            requests: self.requests as int,
            rejected: self.rejected as int,
        }
    }
}

/// The entries heard of recently enough.
fn keep_fresh(peers: &Vec<PeerEntry>, now: u128, ttl: u128) -> (kept: Vec<PeerEntry>)
    ensures
        registry::entries(kept@) == fresh_entries(registry::entries(peers@), now, ttl),
{
    let ghost all = registry::entries(peers@);
    let ghost pred = |e: Entry| is_fresh(e, now, ttl);
    let mut kept: Vec<PeerEntry> = Vec::new();
    let mut i: usize = 0;
    proof {
        reveal(Seq::filter);
        assert(registry::entries(kept@) =~= all.take(0).filter(pred));
    }
    while i < peers.len()
        invariant
            i <= peers@.len(),
            all == registry::entries(peers@),
            pred == (|e: Entry| is_fresh(e, now, ttl)),
            registry::entries(kept@) == all.take(i as int).filter(pred),
        decreases peers@.len() - i,
    {
        proof {
            reveal(Seq::filter);
            assert(all.take(i + 1).drop_last() =~= all.take(i as int));
            assert(all.take(i + 1).last() == all[i as int]);
        }
        if entry_fresh(&peers[i], now, ttl) {
            let ghost before = registry::entries(kept@);
            kept.push(peers[i].clone());
            assert(registry::entries(kept@) =~= before.push(all[i as int]));
        }
        i += 1;
    }
    assert(all.take(i as int) =~= all);
    kept
}

/// Tells whether a peer was heard of recently enough.
fn entry_fresh(entry: &PeerEntry, now: u128, ttl: u128) -> (fresh: bool)
    ensures
        fresh == is_fresh(entry@, now, ttl),
{
    if now >= entry.last_seen {
        now - entry.last_seen < ttl
    } else {
        0 < ttl
    }
}

/// The entries of other peers.
fn keep_others(peers: &Vec<PeerEntry>, peer: &String) -> (kept: Vec<PeerEntry>)
    ensures
        registry::entries(kept@) == others(registry::entries(peers@), peer@),
{
    let ghost all = registry::entries(peers@);
    let ghost pred = |e: Entry| e.id != peer@;
    let mut kept: Vec<PeerEntry> = Vec::new();
    let mut i: usize = 0;
    proof {
        reveal(Seq::filter);
        assert(registry::entries(kept@) =~= all.take(0).filter(pred));
    }
    while i < peers.len()
        invariant
            i <= peers@.len(),
            all == registry::entries(peers@),
            pred == (|e: Entry| e.id != peer@),
            registry::entries(kept@) == all.take(i as int).filter(pred),
        decreases peers@.len() - i,
    {
        proof {
            reveal(Seq::filter);
            assert(all.take(i + 1).drop_last() =~= all.take(i as int));
            assert(all.take(i + 1).last() == all[i as int]);
        }
        if peers[i].id != *peer {
            let ghost before = registry::entries(kept@);
            kept.push(peers[i].clone());
            assert(registry::entries(kept@) =~= before.push(all[i as int]));
        }
        i += 1;
    }
    assert(all.take(i as int) =~= all);
    kept
}

/// Index of the first entry of a peer; the number of entries if there is none.
fn find_entry(peers: &Vec<PeerEntry>, peer: &String) -> (i: usize)
    ensures
        i == entry_at(registry::entries(peers@), peer@),
        i <= peers@.len(),
{
    let ghost all = registry::entries(peers@);
    let mut i: usize = 0;
    assert(all.skip(0) =~= all);
    while i < peers.len()
        invariant
            i <= peers@.len(),
            all == registry::entries(peers@),
            entry_at(all, peer@) == i + entry_at(all.skip(i as int), peer@),
        decreases peers@.len() - i,
    {
        assert(all.skip(i as int)[0] == peers@[i as int]@);
        if peers[i].id == *peer {
            return i;
        }
        assert(all.skip(i as int).skip(1) =~= all.skip(i + 1));
        i += 1;
    }
    i
}

/// The identities of some peers.
fn ids_of(peers: &Vec<PeerEntry>) -> (ids: Vec<String>)
    ensures
        texts(ids@) == Seq::new(peers@.len(), |i: int| registry::entries(peers@)[i].id),
{
    let mut ids: Vec<String> = Vec::new();
    let mut i: usize = 0;
    while i < peers.len()
        invariant
            i <= peers@.len(),
            ids@.len() == i,
            forall|j: int| 0 <= j < i ==> (#[trigger] ids@[j])@ == peers@[j]@.id,
        decreases peers@.len() - i,
    {
        ids.push(peers[i].id.clone());
        i += 1;
    }
    assert(texts(ids@) =~= Seq::new(peers@.len(), |i: int| registry::entries(peers@)[i].id));
    ids
}

/// The addresses of some peers, as far as they are known.
fn addrs_of(peers: &Vec<PeerEntry>) -> (addrs: Vec<String>)
    ensures
        texts(addrs@) == registry::entries(peers@).filter_map(|e: Entry| e.addr),
{
    let ghost all = registry::entries(peers@);
    let ghost f = |e: Entry| e.addr;
    let mut addrs: Vec<String> = Vec::new();
    let mut i: usize = 0;
    assert(texts(addrs@) =~= all.take(0).filter_map(f));
    while i < peers.len()
        invariant
            i <= peers@.len(),
            all == registry::entries(peers@),
            f == (|e: Entry| e.addr),
            texts(addrs@) == all.take(i as int).filter_map(f),
        decreases peers@.len() - i,
    {
        assert(all.take(i + 1).drop_last() =~= all.take(i as int));
        assert(all.take(i + 1).last() == peers@[i as int]@);
        match &peers[i].addr {
            Some(addr) => {
                let ghost before = texts(addrs@);
                addrs.push(addr.clone());
                assert(texts(addrs@) =~= before + seq![addr@]);
            },
            None => {},
        }
        i += 1;
    }
    assert(all.take(i as int) =~= all);
    addrs
}

/// The games of those peers that are not stale in the given game.
spec fn without_stale(
    peer_game: Map<Seq<char>, String>,
    peers: Seq<Entry>,
    game: Seq<char>,
    now: u128,
    ttl: u128,
) -> Map<Seq<char>, String> {
    Map::new(
        |p: Seq<char>|
            peer_game.contains_key(p) && !(peer_game[p]@ == game && has_stale(peers, p, now, ttl)),
        |p: Seq<char>| peer_game[p],
    )
}

/// Dropping the stale peers of one more game.
proof fn lemma_evict_one_more(
    st: Registry,
    done: Set<Seq<char>>,
    g: Seq<char>,
    now: u128,
    ttl: u128,
)
    requires
        !done.contains(g),
    ensures
        evicted(evicted(st, done, now, ttl), set![g], now, ttl) == evicted(
            st,
            done.insert(g),
            now,
            ttl,
        ),
{
    let once = evicted(evicted(st, done, now, ttl), set![g], now, ttl);
    let both = evicted(st, done.insert(g), now, ttl);
    assert(once.games =~= both.games);
    assert(once.peer_game =~= both.peer_game);
    assert(once.sessions =~= both.sessions);
    assert(once =~= both);
}

/// Only games that are there matter.
proof fn lemma_evict_games_there(st: Registry, of: Set<Seq<char>>, now: u128, ttl: u128)
    ensures
        evicted(st, of, now, ttl) == evicted(st, of.intersect(st.games.dom()), now, ttl),
{
    let a = evicted(st, of, now, ttl);
    let b = evicted(st, of.intersect(st.games.dom()), now, ttl);
    assert(a.games =~= b.games);
    assert(a.peer_game =~= b.peer_game);
    assert(a.sessions =~= b.sessions);
    assert(a =~= b);
}

impl BootstrapState {
    /// The registry is sound.
    pub closed spec fn wf(self) -> bool {
        self.games.wf() && registry_inv(self@)
    }

    /// A registry without peers.
    pub fn new() -> (state: BootstrapState)
        ensures
            state.wf(),
            state@ == (Registry {
                games: Map::empty(),
                peer_game: Map::empty(),
                sessions: Map::empty(),
                requests: 0,
                rejected: 0,
            }),
    {
        let state = BootstrapState {
            games: GameTable::new(),
            peer_game: StringHashMap::new(),
            game_session: StringHashMap::new(),
            requests: 0,
            rejected: 0,
        };
        assert(state@.peer_game =~= Map::empty());
        assert(state@.sessions =~= Map::empty());
        state
    }

    /// Forgets where the stale peers of a game are.
    fn forget_stale(
        peer_game: &mut StringHashMap<String>,
        peers: &Vec<PeerEntry>,
        game: &String,
        now: u128,
        ttl: u128,
    )
        ensures
            final(peer_game)@ == without_stale(
                old(peer_game)@,
                registry::entries(peers@),
                game@,
                now,
                ttl,
            ),
    {
        let ghost all = registry::entries(peers@);
        let ghost pg = peer_game@;
        let mut i: usize = 0;
        assert(peer_game@ =~= without_stale(pg, all.take(0), game@, now, ttl));
        while i < peers.len()
            invariant
                i <= peers@.len(),
                all == registry::entries(peers@),
                peer_game@ == without_stale(pg, all.take(i as int), game@, now, ttl),
            decreases peers@.len() - i,
        {
            let ghost before = peer_game@;
            let id = &peers[i].id;
            assert(all[i as int].id == id@);
            if !entry_fresh(&peers[i], now, ttl) {
                let waits_here = match peer_game.get(id.as_str()) {
                    Some(g) => *g == *game,
                    None => false,
                };
                if waits_here {
                    peer_game.remove(id.as_str());
                }
            }
            proof {
                let grown = all.take(i + 1);
                assert forall|p: Seq<char>| has_stale(grown, p, now, ttl) == (has_stale(
                    all.take(i as int),
                    p,
                    now,
                    ttl,
                ) || (id@ == p && !is_fresh(all[i as int], now, ttl))) by {
                    if has_stale(all.take(i as int), p, now, ttl) {
                        let k = choose|k: int|
                            0 <= k < i && (#[trigger] all.take(i as int)[k]).id == p && !is_fresh(
                                all.take(i as int)[k],
                                now,
                                ttl,
                            );
                        assert(grown[k].id == p);
                    }
                    if has_stale(grown, p, now, ttl) {
                        let k = choose|k: int|
                            0 <= k < i + 1 && (#[trigger] grown[k]).id == p && !is_fresh(
                                grown[k],
                                now,
                                ttl,
                            );
                        if k < i {
                            assert(all.take(i as int)[k].id == p);
                        }
                    }
                    assert(grown[i as int] == all[i as int]);
                }
                assert(peer_game@ =~= without_stale(pg, grown, game@, now, ttl));
            }
            i += 1;
        }
        assert(all.take(i as int) =~= all);
    }

    /// Drops the stale peers of a game.
    fn evict_game(&mut self, game: &String, now: u128, ttl: u128)
        requires
            old(self).games.wf(),
        ensures
            final(self).games.wf(),
            final(self)@ == evicted(old(self)@, set![game@], now, ttl),
    {
        let ghost st = self@;
        let ghost goal = evicted(st, set![game@], now, ttl);
        let kept = match self.games.get(game.as_str()) {
            Some(peers) => {
                Self::forget_stale(&mut self.peer_game, peers, game, now, ttl);
                keep_fresh(peers, now, ttl)
            },
            None => {
                assert(goal =~= st);
                return;
            },
        };
        assert(self@.peer_game =~= goal.peer_game);
        if kept.len() == 0 {
            self.games.remove(game.as_str());
            self.game_session.remove(game.as_str());
        } else {
            self.games.set(game, kept);
        }
        assert(self@.games =~= goal.games);
        assert(self@.sessions =~= goal.sessions);
        assert(self@ =~= goal);
    }

    /// Drops the stale peers of all games.
    fn evict_expired(&mut self, now: u128, ttl: u128)
        requires
            old(self).games.wf(),
        ensures
            final(self).games.wf(),
            final(self)@ == evicted(old(self)@, old(self)@.games.dom(), now, ttl),
    {
        let ghost st = self@;
        let names = self.games.names();
        let mut i: usize = 0;
        let ghost mut done: Set<Seq<char>> = Set::empty();
        assert(self@ =~= evicted(st, done, now, ttl));
        while i < names.len()
            invariant
                i <= names@.len(),
                self.games.wf(),
                self@ == evicted(st, done, now, ttl),
                forall|j: int, k: int|
                    0 <= j < k < names@.len() ==> (#[trigger] names@[j])@ != (
                    #[trigger] names@[k])@,
                forall|g: Seq<char>| #[trigger]
                    done.contains(g) ==> exists|j: int| 0 <= j < i && (#[trigger] names@[j])@ == g,
                forall|j: int| 0 <= j < i ==> done.contains((#[trigger] names@[j])@),
            decreases names@.len() - i,
        {
            let ghost g = names@[i as int]@;
            assert(!done.contains(g));
            self.evict_game(&names[i], now, ttl);
            proof {
                lemma_evict_one_more(st, done, g, now, ttl);
                done = done.insert(g);
            }
            i += 1;
        }
        proof {
            lemma_evict_games_there(st, done, now, ttl);
            assert(done.intersect(st.games.dom()) =~= st.games.dom()) by {
                assert forall|g: Seq<char>| #[trigger] st.games.contains_key(g) implies done.contains(
                    g,
                ) by {}
            }
        }
    }
}

/// How many peers are listed for all games together.
pub open spec fn total_peers(games: Map<Seq<char>, Seq<Entry>>) -> nat
    decreases games.dom().len(),
    when games.dom().finite()
{
    if games.dom().len() == 0 {
        0
    } else {
        let g = games.dom().choose();
        games[g].len() + total_peers(games.remove(g))
    }
}

/// There are as many peers listed for games as there are peers that wait for one.
pub proof fn law_peer_count(st: Registry)
    requires
        registry_inv(st),
    ensures
        total_peers(st.games) == st.peer_game.len(),
    decreases st.games.dom().len(),
{
    if st.games.dom().len() == 0 {
        assert(st.peer_game.dom() =~= Set::empty()) by {
            assert forall|p: Seq<char>| !st.peer_game.dom().contains(p) by {
                if st.peer_game.contains_key(p) {
                    assert(st.games.dom().contains(st.peer_game[p]));
                    assert(st.games.dom() =~= Set::empty());
                }
            }
        }
    } else {
        let g = st.games.dom().choose();
        assert(st.games.contains_key(g));
        let bucket = st.games[g];
        let ids = Seq::new(bucket.len(), |i: int| bucket[i].id);
        let rest = Registry {
            games: st.games.remove(g),
            peer_game: Map::new(
                |p: Seq<char>| st.peer_game.contains_key(p) && st.peer_game[p] != g,
                |p: Seq<char>| st.peer_game[p],
            ),
            sessions: Map::empty(),
            ..st
        };
        vstd::set_lib::lemma_set_subset_finite(st.peer_game.dom(), rest.peer_game.dom());
        assert(registry_inv(rest)) by {
            assert forall|h: Seq<char>, i: int|
                rest.games.contains_key(h) && 0 <= i
                    < rest.games[h].len() implies rest.peer_game.contains_key(
                (#[trigger] rest.games[h][i]).id,
            ) && rest.peer_game[rest.games[h][i].id] == h by {
                assert(st.games[h][i] == rest.games[h][i]);
            }
            assert forall|h: Seq<char>, i: int, j: int|
                rest.games.contains_key(h) && 0 <= i < j < rest.games[h].len() implies (
            #[trigger] rest.games[h][i]).id != (#[trigger] rest.games[h][j]).id by {
                assert(st.games[h][i].id != st.games[h][j].id);
            }
            assert forall|p: Seq<char>| #[trigger]
                rest.peer_game.contains_key(p) implies rest.games.contains_key(rest.peer_game[p])
                && entry_at(rest.games[rest.peer_game[p]], p) < rest.games[rest.peer_game[p]].len() by {
                assert(st.peer_game.contains_key(p));
            }
        }
        law_peer_count(rest);
        assert(ids.no_duplicates()) by {
            assert forall|i: int, j: int| 0 <= i < ids.len() && 0 <= j < ids.len() && i != j implies ids[i]
                != ids[j] by {
                if i < j {
                    assert(st.games[g][i].id != st.games[g][j].id);
                } else {
                    assert(st.games[g][j].id != st.games[g][i].id);
                }
            }
        }
        ids.unique_seq_to_set();
        let here = ids.to_set();
        assert(here.disjoint(rest.peer_game.dom())) by {
            assert forall|p: Seq<char>| here.contains(p) implies !rest.peer_game.dom().contains(p) by {
                let i = choose|i: int| 0 <= i < ids.len() && ids[i] == p;
                assert(st.games[g][i].id == p);
            }
        }
        assert(st.peer_game.dom() =~= here + rest.peer_game.dom()) by {
            assert forall|p: Seq<char>| st.peer_game.dom().contains(p) == (here
                + rest.peer_game.dom()).contains(p) by {
                if st.peer_game.contains_key(p) && st.peer_game[p] == g {
                    lemma_entry_at(bucket, p);
                    assert(ids[entry_at(bucket, p)] == p);
                }
                if here.contains(p) {
                    let i = choose|i: int| 0 <= i < ids.len() && ids[i] == p;
                    assert(st.games[g][i].id == p);
                }
            }
        }
        vstd::set_lib::lemma_set_disjoint_lens(here, rest.peer_game.dom());
    }
}

/// Figures about a running server.
#[derive(Debug, Clone, Copy, PartialEq, Eq, Structural)]
pub struct StatsResponse {
    /// Games that peers wait for.
    pub games: usize,
    /// Peers that wait.
    pub peers: usize,
    /// Well-formed requests so far.
    pub requests: u64,
    /// Requests turned down so far.
    pub rejected: u64,
}

impl BootstrapState {
    /// How many peers are listed for all games together.
    fn peer_count(&self) -> (n: usize)
        requires
            self.wf(),
        ensures
            n == total_peers(self@.games),
    {
        proof {
            law_peer_count(self@);
            assert(self@.peer_game.dom() =~= self.peer_game@.dom());
        }
        self.peer_game.len()
    }

    /// Takes a peer out of the game that it waited for, if it now waits for another.
    fn remove_peer_from_previous_game(&mut self, peer: &String, game: &String)
        requires
            old(self).games.wf(),
        ensures
            final(self).games.wf(),
            final(self)@ == peer_left(old(self)@, peer@, game@),
    {
        let ghost st = self@;
        let previous = match self.peer_game.get(peer.as_str()) {
            Some(g) => g.clone(),
            None => {
                return;
            },
        };
        if previous == *game {
            return;
        }
        let rest = match self.games.get(previous.as_str()) {
            Some(peers) => Some(keep_others(peers, peer)),
            None => None,
        };
        match rest {
            Some(rest) => {
                if rest.len() == 0 {
                    self.games.remove(previous.as_str());
                    self.game_session.remove(previous.as_str());
                } else {
                    self.games.set(&previous, rest);
                }
            },
            None => {},
        }
        self.peer_game.remove(peer.as_str());
        proof {
            let goal = peer_left(st, peer@, game@);
            assert(self@.peer_game =~= goal.peer_game);
            assert(self@.sessions =~= goal.sessions);
            assert(self@.games =~= goal.games);
            assert(self@ =~= goal);
        }
    }

    /// Registers a peer for a game.
    fn register(&mut self, max_peers: usize, game: &String, params: Params, now: u128) -> (reply:
        BootstrapReply)
        requires
            old(self).games.wf(),
        ensures
            final(self).games.wf(),
            (final(self)@, reply@) == peer_registered(
                old(self)@,
                max_peers as int,
                game@,
                params.id@,
                opt_text(params.session),
                opt_text(params.addr),
                now,
            ),
    {
        let ghost st = self@;
        let ghost named = match opt_text(params.session) {
            Some(s) => Registry { sessions: st.sessions.insert(game@, s), ..st },
            None => st,
        };
        match &params.session {
            Some(session) => {
                self.game_session.insert(game.clone(), session.clone());
                assert(self@.sessions =~= named.sessions);
            },
            None => {},
        }
        assert(self@ =~= named);
        let session = match self.game_session.get(game.as_str()) {
            Some(session) => session.clone(),
            None => game.clone(),
        };
        assert(session@ == session_of(named, game@));
        self.remove_peer_from_previous_game(&params.id, game);
        let ghost left = self@;
        let mut peers: Vec<PeerEntry> = match self.games.get(game.as_str()) {
            Some(peers) => copy_entries(peers),
            None => Vec::new(),
        };
        assert(registry::entries(peers@) =~= peers_of(left, game@));
        let ghost before = registry::entries(peers@);
        let entry = PeerEntry {
            id: params.id.clone(),
            addr: match &params.addr {
                Some(addr) => Some(addr.clone()),
                None => None,
            },
            last_seen: now,
        };
        let ghost e = entry@;
        let at: usize = find_entry(&peers, &params.id);
        if at < peers.len() {
            peers.set(at, entry);
            assert(registry::entries(peers@) =~= before.update(at as int, e));
        } else if peers.len() < max_peers {
            peers.push(entry);
            assert(registry::entries(peers@) =~= before.push(e));
        }
        assert(registry::entries(peers@) =~= upserted(before, e, max_peers as int));
        let listed: usize = find_entry(&peers, &params.id);
        let registered: usize = peers.len();
        if listed < registered {
            self.peer_game.insert(params.id.clone(), game.clone());
        }
        let rest = keep_others(&peers, &params.id);
        let response = BootstrapResponse {
            session,
            peers: ids_of(&rest),
            peer_addrs: addrs_of(&rest),
        };
        self.games.set(game, peers);
        proof {
            let goal = peer_registered(
                st,
                max_peers as int,
                game@,
                params.id@,
                opt_text(params.session),
                opt_text(params.addr),
                now,
            );
            assert(self@.peer_game =~= goal.0.peer_game);
            assert(self@.sessions =~= goal.0.sessions);
            assert(self@.games =~= goal.0.games);
            assert(self@ =~= goal.0);
        }
        BootstrapReply::Found { response, registered }
    }

    /// Turns a request down.
    fn turn_down(&mut self, status: u16, error: &str) -> (reply: BootstrapReply)
        requires
            old(self).games.wf(),
            old(self)@.rejected < u64::MAX,
        ensures
            final(self).games.wf(),
            (final(self)@, reply@) == turned_down(old(self)@, status, error@),
    {
        self.rejected = self.rejected + 1;
        BootstrapReply::Rejected { status, error: error.to_owned() }
    }
}

/// Copies entries.
fn copy_entries(peers: &Vec<PeerEntry>) -> (copy: Vec<PeerEntry>)
    ensures
        registry::entries(copy@) == registry::entries(peers@),
{
    let mut copy: Vec<PeerEntry> = Vec::new();
    let mut i: usize = 0;
    while i < peers.len()
        invariant
            i <= peers@.len(),
            copy@.len() == i,
            forall|j: int| 0 <= j < i ==> (#[trigger] copy@[j])@ == peers@[j]@,
        decreases peers@.len() - i,
    {
        copy.push(peers[i].clone());
        i += 1;
    }
    assert(registry::entries(copy@) =~= registry::entries(peers@));
    copy
}

/// Tells peers that wait for the same game of each other.
pub struct BootstrapServer {
    state: BootstrapState,
    config: ServerConfig,
}

impl View for BootstrapServer {
    type V = Registry;

    closed spec fn view(&self) -> Registry {
        self.state@
    }
}

impl BootstrapServer {
    /// How the server is set up.
    pub closed spec fn spec_config(self) -> ServerConfig {
        self.config
    }

    /// The registry is sound.
    pub closed spec fn wf(self) -> bool {
        self.state.wf()
    }

    /// A server's registry is sound: it satisfies the invariant that the laws rest on.
    pub proof fn law_registry_is_sound(self)
        requires
            self.wf(),
        ensures
            registry_inv(self@),
    {
    }

    /// A server without peers.
    pub fn new(config: ServerConfig) -> (server: BootstrapServer)
        ensures
            server.wf(),
            server.spec_config() == config,
            server@ == nothing_known(),
    {
        BootstrapServer { state: BootstrapState::new(), config }
    }

    /// Sets a server up step by step.
    pub fn builder() -> (builder: BootstrapServerBuilder)
        ensures
            builder.config == default_config(),
    {
        BootstrapServerBuilder::new()
    }

    /// How the server is set up.
    pub fn config(&self) -> (config: ServerConfig)
        ensures
            config == self.spec_config(),
    {
        self.config
    }

    /// Figures about the server.
    pub fn stats(&self) -> (stats: StatsResponse)
        requires
            self.wf(),
        ensures
            stats.games == self@.games.len(),
            stats.peers == total_peers(self@.games),
            stats.requests == self@.requests,
            stats.rejected == self@.rejected,
    {
        StatsResponse {
            games: self.state.games.len(),
            peers: self.state.peer_count(),
            requests: self.state.requests,
            rejected: self.state.rejected,
        }
    }

    /// Handles the request of a peer that waits for a game.
    pub fn handle_bootstrap(&mut self, game: &String, params: Params, now: u128) -> (reply:
        BootstrapReply)
        requires
            old(self).wf(),
            old(self)@.requests < u64::MAX,
            old(self)@.rejected < u64::MAX,
        ensures
            final(self).wf(),
            final(self).spec_config() == old(self).spec_config(),
            (final(self)@, reply@) == bootstrap_handled(
                old(self)@,
                old(self).spec_config(),
                game@,
                params.id@,
                opt_text(params.session),
                opt_text(params.addr),
                now,
            ),
    {
        proof {
            law_registry_stays_sound(
                self@,
                self.config,
                game@,
                params.id@,
                opt_text(params.session),
                opt_text(params.addr),
                now,
            );
        }
        if !valid_hash(game.as_str()) || !valid_peer_id(params.id.as_str()) {
            return self.state.turn_down(400, "invalid request");
        }
        let bad_session = match &params.session {
            Some(session) => !valid_hash(session.as_str()),
            None => false,
        };
        if bad_session {
            return self.state.turn_down(400, "invalid session");
        }
        let bad_addr = match &params.addr {
            Some(addr) => !valid_addr(addr.as_str()),
            None => false,
        };
        if bad_addr {
            return self.state.turn_down(400, "invalid address");
        }
        let ttl: u128 = self.config.peer_ttl();
        let max_games: usize = self.config.max_games;
        self.state.requests = self.state.requests + 1;
        self.state.evict_game(game, now, ttl);
        let ghost first = self.state@;
        if !self.state.games.contains(game.as_str()) && self.state.games.len() >= max_games {
            self.state.evict_expired(now, ttl);
            if !self.state.games.contains(game.as_str()) && self.state.games.len() >= max_games {
                return self.state.turn_down(503, "server full");
            }
        }
        self.state.register(self.config.max_peers, game, params, now)
    }
}

/// Sets a server up step by step.
pub struct BootstrapServerBuilder {
    /// The set-up so far.
    pub config: ServerConfig,
}

impl Default for BootstrapServerBuilder {
    fn default() -> (builder: BootstrapServerBuilder)
        ensures
            builder.config == default_config(),
    {
        Self::new()
    }
}

impl BootstrapServerBuilder {
    /// A builder with the default set-up.
    pub fn new() -> (builder: BootstrapServerBuilder)
        ensures
            builder.config == default_config(),
    {
        Self { config: ServerConfig::default() }
    }

    /// Replaces the whole set-up.
    pub fn config(self, config: ServerConfig) -> (builder: BootstrapServerBuilder)
        ensures
            builder.config == config,
    {
        Self { config }
    }

    /// Sets the port to listen on.
    pub fn port(self, port: u16) -> (builder: BootstrapServerBuilder)
        ensures
            builder.config == (ServerConfig { port, ..self.config }),
    {
        let mut config = self.config;
        config.port = port;
        Self { config }
    }

    /// Sets the IPv4 address to listen on.
    pub fn bind(self, bind: [u8; 4]) -> (builder: BootstrapServerBuilder)
        ensures
            builder.config == (ServerConfig { bind, ..self.config }),
    {
        let mut config = self.config;
        config.bind = bind;
        Self { config }
    }

    /// Sets how many peers are kept for a game.
    pub fn max_peers(self, max_peers: usize) -> (builder: BootstrapServerBuilder)
        ensures
            builder.config == (ServerConfig { max_peers, ..self.config }),
    {
        let mut config = self.config;
        config.max_peers = max_peers;
        Self { config }
    }

    /// Sets how many games are kept.
    pub fn max_games(self, max_games: usize) -> (builder: BootstrapServerBuilder)
        ensures
            builder.config == (ServerConfig { max_games, ..self.config }),
    {
        let mut config = self.config;
        config.max_games = max_games;
        Self { config }
    }

    /// Sets a peer's time to live, in seconds.
    pub fn ttl(self, ttl: u64) -> (builder: BootstrapServerBuilder)
        ensures
            builder.config == (ServerConfig { ttl, ..self.config }),
    {
        let mut config = self.config;
        config.ttl = ttl;
        Self { config }
    }

    /// Sets whether requests are logged.
    pub fn verbose(self, verbose: bool) -> (builder: BootstrapServerBuilder)
        ensures
            builder.config == (ServerConfig { verbose, ..self.config }),
    {
        let mut config = self.config;
        config.verbose = verbose;
        Self { config }
    }

    /// A server with this set-up.
    pub fn build(self) -> (server: BootstrapServer)
        ensures
            server.wf(),
            server.spec_config() == self.config,
            server@ == nothing_known(),
    {
        BootstrapServer::new(self.config)
    }
}

// ---------------------------------------------------------------------------
// Laws
// ---------------------------------------------------------------------------
/// Whether the server keeps to its limits.
pub open spec fn within_limits(st: Registry, config: ServerConfig) -> bool {
    &&& st.games.len() <= config.max_games
    &&& forall|g: Seq<char>| #[trigger]
        st.games.contains_key(g) ==> st.games[g].len() <= config.max_peers
}

proof fn lemma_evicted_smaller(st: Registry, of: Set<Seq<char>>, now: u128, ttl: u128)
    requires
        registry_inv(st),
    ensures
        evicted(st, of, now, ttl).games.len() <= st.games.len(),
        forall|g: Seq<char>| #[trigger]
            evicted(st, of, now, ttl).games.contains_key(g) ==> st.games.contains_key(g)
                && evicted(st, of, now, ttl).games[g].len() <= st.games[g].len(),
{
    let next = evicted(st, of, now, ttl);
    assert(next.games.dom().subset_of(st.games.dom()));
    vstd::set_lib::lemma_len_subset(next.games.dom(), st.games.dom());
    assert forall|g: Seq<char>| #[trigger] next.games.contains_key(g) implies next.games[g].len()
        <= st.games[g].len() by {
        st.games[g].lemma_filter_len(|e: Entry| is_fresh(e, now, ttl));
    }
}

proof fn lemma_registered_within(
    st: Registry,
    config: ServerConfig,
    game: Seq<char>,
    id: Seq<char>,
    session: Option<Seq<char>>,
    addr: Option<Seq<char>>,
    now: u128,
)
    requires
        registry_inv(st),
        within_limits(st, config),
        st.games.contains_key(game) || st.games.len() < config.max_games,
    ensures
        within_limits(
            peer_registered(st, config.max_peers as int, game, id, session, addr, now).0,
            config,
        ),
{
    let named = match session {
        Some(s) => Registry { sessions: st.sessions.insert(game, s), ..st },
        None => st,
    };
    let base = Registry { sessions: Map::empty(), ..named };
    lemma_inv_left(base, id, game);
    let left = peer_left(named, id, game);
    let bare = peer_left(base, id, game);
    assert(left.games == bare.games && left.peer_game == bare.peer_game);
    let s = peers_of(left, game);
    let entry = Entry { id, addr, last_seen: now };
    lemma_upserted(s, entry, config.max_peers as int);
    let next = peer_registered(st, config.max_peers as int, game, id, session, addr, now).0;
    assert(next.games.dom() =~= left.games.dom().insert(game));
    assert forall|g: Seq<char>| #[trigger] next.games.contains_key(g) implies next.games[g].len()
        <= config.max_peers by {
        if g != game {
            if st.peer_game.contains_key(id) && g == st.peer_game[id] {
                st.games[g].lemma_filter_len(|e: Entry| e.id != id);
            }
            assert(st.games.contains_key(g));
        } else if st.games.contains_key(game) {
            assert(s == st.games[game]);
        }
    }
}

/// The server keeps to its limits on games and on peers of a game.
pub proof fn law_limits_kept(
    st: Registry,
    config: ServerConfig,
    game: Seq<char>,
    id: Seq<char>,
    session: Option<Seq<char>>,
    addr: Option<Seq<char>>,
    now: u128,
)
    requires
        registry_inv(st),
        within_limits(st, config),
    ensures
        within_limits(bootstrap_handled(st, config, game, id, session, addr, now).0, config),
{
    let ttl = ttl_nanos(config);
    let counted = Registry { requests: st.requests + 1, ..st };
    lemma_inv_evicted(counted, set![game], now, ttl);
    lemma_evicted_smaller(counted, set![game], now, ttl);
    let first = evicted(counted, set![game], now, ttl);
    lemma_inv_evicted(first, first.games.dom(), now, ttl);
    lemma_evicted_smaller(first, first.games.dom(), now, ttl);
    let all = evicted(first, first.games.dom(), now, ttl);
    if first.games.contains_key(game) || first.games.len() < config.max_games {
        lemma_registered_within(first, config, game, id, session, addr, now);
    }
    if all.games.contains_key(game) || all.games.len() < config.max_games {
        lemma_registered_within(all, config, game, id, session, addr, now);
    }
}

/// Whether every game has a peer that waits for it.
pub open spec fn no_game_is_empty(st: Registry) -> bool {
    forall|g: Seq<char>| #[trigger] st.games.contains_key(g) ==> st.games[g].len() > 0
}

proof fn lemma_registered_not_empty(
    st: Registry,
    max_peers: int,
    game: Seq<char>,
    id: Seq<char>,
    session: Option<Seq<char>>,
    addr: Option<Seq<char>>,
    now: u128,
)
    requires
        no_game_is_empty(st),
        max_peers >= 1,
    ensures
        no_game_is_empty(peer_registered(st, max_peers, game, id, session, addr, now).0),
{
    let named = match session {
        Some(s) => Registry { sessions: st.sessions.insert(game, s), ..st },
        None => st,
    };
    let left = peer_left(named, id, game);
    let s = peers_of(left, game);
    let next = peer_registered(st, max_peers, game, id, session, addr, now).0;
    lemma_entry_at(s, id);
    assert forall|g: Seq<char>| #[trigger] next.games.contains_key(g) implies next.games[g].len()
        > 0 by {
        if g != game {
            assert(left.games.contains_key(g));
            assert(named.games.contains_key(g));
        }
    }
}

/// Where games may have peers at all, no game is left without one.
pub proof fn law_no_game_without_peers(
    st: Registry,
    config: ServerConfig,
    game: Seq<char>,
    id: Seq<char>,
    session: Option<Seq<char>>,
    addr: Option<Seq<char>>,
    now: u128,
)
    requires
        no_game_is_empty(st),
        config.max_peers >= 1,
    ensures
        no_game_is_empty(bootstrap_handled(st, config, game, id, session, addr, now).0),
{
    let ttl = ttl_nanos(config);
    let counted = Registry { requests: st.requests + 1, ..st };
    assert(no_game_is_empty(counted)) by {
        assert(counted.games == st.games);
    }
    let first = evicted(counted, set![game], now, ttl);
    assert(no_game_is_empty(first)) by {
        assert forall|g: Seq<char>| #[trigger] first.games.contains_key(g) implies first.games[g].len()
            > 0 by {
            assert(counted.games.contains_key(g));
        }
    }
    let all = evicted(first, first.games.dom(), now, ttl);
    assert(no_game_is_empty(all));
    lemma_registered_not_empty(first, config.max_peers as int, game, id, session, addr, now);
    lemma_registered_not_empty(all, config.max_peers as int, game, id, session, addr, now);
    assert(no_game_is_empty(turned_down(all, 503, "server full"@).0)) by {
        assert(turned_down(all, 503, "server full"@).0.games == all.games);
    }
}

/// One request.
pub struct Request {
    /// The game asked for.
    pub game: Seq<char>,
    /// Who asks.
    pub id: Seq<char>,
    /// The session that is named, if any.
    pub session: Option<Seq<char>>,
    /// The address that is sent, if any.
    pub addr: Option<Seq<char>>,
    /// When it is asked.
    pub now: u128,
}

/// What a server knows at first.
pub open spec fn nothing_known() -> Registry {
    Registry {
        games: Map::empty(),
        peer_game: Map::empty(),
        sessions: Map::empty(),
        requests: 0,
        rejected: 0,
    }
}

/// What a new server knows after some requests.
pub open spec fn requests_handled(config: ServerConfig, asked: Seq<Request>) -> Registry
    decreases asked.len(),
{
    if asked.len() == 0 {
        nothing_known()
    } else {
        let last = asked.last();
        bootstrap_handled(
            requests_handled(config, asked.drop_last()),
            config,
            last.game,
            last.id,
            last.session,
            last.addr,
            last.now,
        ).0
    }
}

/// Whatever a server was asked since it was started: each peer is listed once and for
/// the one game that it waits for, only games that are there have a session, the
/// limits are kept, and, where games may have peers at all, every game has one.
pub proof fn law_registry_over_time(config: ServerConfig, asked: Seq<Request>)
    ensures
        registry_inv(requests_handled(config, asked)),
        within_limits(requests_handled(config, asked), config),
        config.max_peers >= 1 ==> no_game_is_empty(requests_handled(config, asked)),
    decreases asked.len(),
{
    if asked.len() > 0 {
        law_registry_over_time(config, asked.drop_last());
        let st = requests_handled(config, asked.drop_last());
        let last = asked.last();
        law_registry_stays_sound(
            st,
            config,
            last.game,
            last.id,
            last.session,
            last.addr,
            last.now,
        );
        law_limits_kept(st, config, last.game, last.id, last.session, last.addr, last.now);
        if config.max_peers >= 1 {
            law_no_game_without_peers(
                st,
                config,
                last.game,
                last.id,
                last.session,
                last.addr,
                last.now,
            );
        }
    }
}

/// Whether a request is well-formed.
pub open spec fn well_formed(
    game: Seq<char>,
    id: Seq<char>,
    session: Option<Seq<char>>,
    addr: Option<Seq<char>>,
) -> bool {
    &&& is_hash(game)
    &&& is_token(id, MAX_PEER_ID_LEN as int)
    &&& session matches Some(s) ==> is_hash(s)
    &&& addr matches Some(a) ==> is_token(a, MAX_ADDR_LEN as int)
}

proof fn lemma_filter_map_has(s: Seq<Entry>, k: int, addr: Seq<char>)
    requires
        0 <= k < s.len(),
        s[k].addr == Some(addr),
    ensures
        s.filter_map(|e: Entry| e.addr).contains(addr),
    decreases s.len(),
{
    let f = |e: Entry| e.addr;
    let rest = s.drop_last().filter_map(f);
    if k == s.len() - 1 {
        assert(s.filter_map(f) == rest + seq![addr]);
        assert((rest + seq![addr])[rest.len() as int] == addr);
    } else {
        lemma_filter_map_has(s.drop_last(), k, addr);
        let j = choose|j: int| 0 <= j < rest.len() && rest[j] == addr;
        assert(s.filter_map(f)[j] == addr);
    }
}

/// Entries of other peers are named.
proof fn lemma_named(s: Seq<Entry>, entry: Entry, capacity: int, i: int)
    requires
        0 <= i < s.len(),
        s[i].id != entry.id,
    ensures
        ({
            let rest = others(upserted(s, entry, capacity), entry.id);
            &&& Seq::new(rest.len(), |i: int| rest[i].id).contains(s[i].id)
            &&& s[i].addr matches Some(a) ==> rest.filter_map(|e: Entry| e.addr).contains(a)
        }),
{
    let peers = upserted(s, entry, capacity);
    lemma_entry_at(s, entry.id);
    assert(peers[i] == s[i]);
    let pred = |e: Entry| e.id != entry.id;
    let source = lemma_filter_source(peers, pred);
    assert(pred(peers[i]));
    let rest = others(peers, entry.id);
    let j = choose|j: int| 0 <= j < source.len() && source[j] == i;
    assert(rest[j] == s[i]);
    let ids = Seq::new(rest.len(), |i: int| rest[i].id);
    assert(ids[j] == s[i].id);
    if s[i].addr is Some {
        lemma_filter_map_has(rest, j, s[i].addr.unwrap());
    }
}

/// Peers find each other: whoever was heard of recently enough is named to every
/// other peer that asks for the same game, with the address that it sent.
pub proof fn law_waiting_peer_is_found(
    st: Registry,
    config: ServerConfig,
    game: Seq<char>,
    k: int,
    id: Seq<char>,
    session: Option<Seq<char>>,
    addr: Option<Seq<char>>,
    now: u128,
)
    requires
        registry_inv(st),
        well_formed(game, id, session, addr),
        st.games.contains_key(game),
        0 <= k < st.games[game].len(),
        st.games[game][k].id != id,
        is_fresh(st.games[game][k], now, ttl_nanos(config)),
    ensures
        bootstrap_handled(st, config, game, id, session, addr, now).1 matches Reply::Found {
            peers,
            peer_addrs,
            ..
        } && peers.contains(st.games[game][k].id) && (st.games[game][k].addr matches Some(a)
            ==> peer_addrs.contains(a)),
{
    let ttl = ttl_nanos(config);
    let counted = Registry { requests: st.requests + 1, ..st };
    let of = set![game];
    lemma_inv_evicted(counted, of, now, ttl);
    let first = evicted(counted, of, now, ttl);
    let waiting = st.games[game][k];
    lemma_filtered_bucket(st.games[game], |e: Entry| is_fresh(e, now, ttl));
    let kept = fresh_entries(st.games[game], now, ttl);
    let i = choose|i: int| 0 <= i < kept.len() && kept[i] == waiting;
    assert(first.games[game] == kept);
    let named = match session {
        Some(s) => Registry { sessions: first.sessions.insert(game, s), ..first },
        None => first,
    };
    let base = Registry { sessions: Map::empty(), ..named };
    lemma_inv_left(base, id, game);
    let left = peer_left(named, id, game);
    assert(left.games == peer_left(base, id, game).games);
    assert(peers_of(left, game) == kept);
    lemma_named(kept, Entry { id, addr, last_seen: now }, config.max_peers as int, i);
}

/// A peer that is answered is listed for the game with the address that it sent,
/// unless the game has no room for it.
pub proof fn law_answered_peer_is_listed(
    st: Registry,
    config: ServerConfig,
    game: Seq<char>,
    id: Seq<char>,
    session: Option<Seq<char>>,
    addr: Option<Seq<char>>,
    now: u128,
)
    requires
        registry_inv(st),
    ensures
        ({
            let (next, reply) = bootstrap_handled(st, config, game, id, session, addr, now);
            reply is Found ==> {
                ||| next.games.contains_key(game) && next.games[game].contains(
                    Entry { id, addr, last_seen: now },
                )
                ||| next.games.contains_key(game) && next.games[game].len() >= config.max_peers
            }
        }),
{
    let ttl = ttl_nanos(config);
    let counted = Registry { requests: st.requests + 1, ..st };
    let first = evicted(counted, set![game], now, ttl);
    let all = evicted(first, first.games.dom(), now, ttl);
    let entry = Entry { id, addr, last_seen: now };
    lemma_listed(first, config, game, entry, session);
    lemma_listed(all, config, game, entry, session);
}

proof fn lemma_listed(
    st: Registry,
    config: ServerConfig,
    game: Seq<char>,
    entry: Entry,
    session: Option<Seq<char>>,
)
    ensures
        ({
            let next = peer_registered(
                st,
                config.max_peers as int,
                game,
                entry.id,
                session,
                entry.addr,
                entry.last_seen,
            ).0;
            ||| next.games[game].contains(entry)
            ||| next.games[game].len() >= config.max_peers
        }),
{
    let named = match session {
        Some(s) => Registry { sessions: st.sessions.insert(game, s), ..st },
        None => st,
    };
    let s = peers_of(peer_left(named, entry.id, game), game);
    let t = upserted(s, entry, config.max_peers as int);
    lemma_entry_at(s, entry.id);
    if entry_at(s, entry.id) < s.len() {
        assert(t[entry_at(s, entry.id)] == entry);
    } else if s.len() < config.max_peers {
        assert(t[s.len() as int] == entry);
    }
}

/// Who is not heard of in time is forgotten: a peer that is named was heard of
/// within the time to live.
pub proof fn law_named_peers_are_fresh(
    st: Registry,
    config: ServerConfig,
    game: Seq<char>,
    id: Seq<char>,
    session: Option<Seq<char>>,
    addr: Option<Seq<char>>,
    now: u128,
    i: int,
)
    requires
        registry_inv(st),
        bootstrap_handled(st, config, game, id, session, addr, now).1 is Found,
        0 <= i < bootstrap_handled(st, config, game, id, session, addr, now).0.games[game].len(),
    ensures
        ({
            let e = bootstrap_handled(st, config, game, id, session, addr, now).0.games[game][i];
            e.id == id || is_fresh(e, now, ttl_nanos(config))
        }),
{
    let ttl = ttl_nanos(config);
    let pred = |e: Entry| is_fresh(e, now, ttl);
    let counted = Registry { requests: st.requests + 1, ..st };
    let of = set![game];
    lemma_inv_evicted(counted, of, now, ttl);
    let first = evicted(counted, of, now, ttl);
    let full = !first.games.contains_key(game) && first.games.len() >= config.max_games;
    lemma_inv_evicted(first, first.games.dom(), now, ttl);
    let ready = if full {
        evicted(first, first.games.dom(), now, ttl)
    } else {
        first
    };
    let named = match session {
        Some(s) => Registry { sessions: ready.sessions.insert(game, s), ..ready },
        None => ready,
    };
    let base = Registry { sessions: Map::empty(), ..named };
    lemma_inv_left(base, id, game);
    let left = peer_left(named, id, game);
    assert(left.games == peer_left(base, id, game).games);
    let s = peers_of(left, game);
    assert(s == peers_of(ready, game));
    assert forall|k: int| 0 <= k < s.len() implies is_fresh(#[trigger] s[k], now, ttl) by {
        if first.games.contains_key(game) {
            assert(first.games[game] == st.games[game].filter(pred));
            st.games[game].lemma_filter_pred(pred, k);
        }
    }
    let entry = Entry { id, addr, last_seen: now };
    let t = upserted(s, entry, config.max_peers as int);
    lemma_entry_at(s, id);
    if i < s.len() && t[i] == s[i] {
        assert(is_fresh(s[i], now, ttl));
    }
}

/// A peer names a session once for all: whoever asks for the game afterwards,
/// without naming a session itself, is told that session while the game lasts.
pub proof fn law_session_is_kept(
    st: Registry,
    config: ServerConfig,
    game: Seq<char>,
    k: int,
    id: Seq<char>,
    addr: Option<Seq<char>>,
    now: u128,
)
    requires
        registry_inv(st),
        well_formed(game, id, None, addr),
        st.games.contains_key(game),
        0 <= k < st.games[game].len(),
        is_fresh(st.games[game][k], now, ttl_nanos(config)),
    ensures
        bootstrap_handled(st, config, game, id, None, addr, now).1 matches Reply::Found {
            session,
            ..
        } && session == session_of(st, game),
        session_of(bootstrap_handled(st, config, game, id, None, addr, now).0, game) == session_of(
            st,
            game,
        ),
{
    let ttl = ttl_nanos(config);
    let counted = Registry { requests: st.requests + 1, ..st };
    let of = set![game];
    lemma_inv_evicted(counted, of, now, ttl);
    let first = evicted(counted, of, now, ttl);
    let pred = |e: Entry| is_fresh(e, now, ttl);
    lemma_filtered_bucket(st.games[game], pred);
    assert(pred(st.games[game][k]));
    assert(first.games.contains_key(game));
    assert(first.sessions.contains_key(game) == st.sessions.contains_key(game));
}

/// A peer's time to live is what the set-up says, in seconds: it counts as waiting from
/// the time at which it asked until that many seconds later, and not from then on.
pub proof fn law_time_to_live(e: Entry, config: ServerConfig, now: u128)
    ensures
        is_fresh(e, now, ttl_nanos(config)) <==> config.ttl > 0 && now < e.last_seen + config.ttl
            * 1_000_000_000,
{
    assert(config.ttl * NANOS_PER_SEC <= u64::MAX * 1_000_000_000);
}

/// Which peers of a game still wait at a time, by the clock and the seconds of the set-up.
pub open spec fn waits_at(config: ServerConfig, now: u128) -> spec_fn(Entry) -> bool {
    |e: Entry| config.ttl > 0 && now < e.last_seen + config.ttl * 1_000_000_000
}

/// The peers that wait for a game at a time.
pub open spec fn waiting(st: Registry, config: ServerConfig, game: Seq<char>, now: u128) -> Seq<
    Entry,
> {
    if st.games.contains_key(game) {
        st.games[game].filter(waits_at(config, now))
    } else {
        Seq::empty()
    }
}

/// The games that some peer waits for at a time.
pub open spec fn games_waited_for(st: Registry, config: ServerConfig, now: u128) -> Set<Seq<char>> {
    Set::new(
        |g: Seq<char>|
            st.games.contains_key(g) && exists|k: int|
                0 <= k < st.games[g].len() && waits_at(config, now)(#[trigger] st.games[g][k]),
    )
}

/// The registry once stale peers were dropped for a request.
spec fn readied(st: Registry, config: ServerConfig, game: Seq<char>, now: u128) -> Registry {
    let ttl = ttl_nanos(config);
    let counted = Registry { requests: st.requests + 1, ..st };
    let first = evicted(counted, set![game], now, ttl);
    if !first.games.contains_key(game) && first.games.len() >= config.max_games {
        evicted(first, first.games.dom(), now, ttl)
    } else {
        first
    }
}

proof fn lemma_fresh_is_waiting(s: Seq<Entry>, config: ServerConfig, now: u128)
    ensures
        fresh_entries(s, now, ttl_nanos(config)) == s.filter(waits_at(config, now)),
{
    let ttl = ttl_nanos(config);
    let fresh = |e: Entry| is_fresh(e, now, ttl);
    assert forall|e: Entry| #[trigger] fresh(e) == waits_at(config, now)(e) by {
        law_time_to_live(e, config, now);
    }
    assert(fresh =~= waits_at(config, now));
}

proof fn lemma_readied(st: Registry, config: ServerConfig, game: Seq<char>, now: u128)
    requires
        registry_inv(st),
    ensures
        registry_inv(readied(st, config, game, now)),
        peers_of(readied(st, config, game, now), game) == waiting(st, config, game, now),
        readied(st, config, game, now).requests == st.requests + 1,
        readied(st, config, game, now).rejected == st.rejected,
        readied(st, config, game, now).games.contains_key(game) <==> waiting(
            st,
            config,
            game,
            now,
        ).len() > 0,
        !readied(st, config, game, now).games.contains_key(game) && readied(
            st,
            config,
            game,
            now,
        ).games.len() >= config.max_games <==> waiting(st, config, game, now).len() == 0
            && games_waited_for(st, config, now).len() >= config.max_games,
{
    let ttl = ttl_nanos(config);
    let counted = Registry { requests: st.requests + 1, ..st };
    let of = set![game];
    lemma_inv_evicted(counted, of, now, ttl);
    let first = evicted(counted, of, now, ttl);
    lemma_inv_evicted(first, first.games.dom(), now, ttl);
    let all = evicted(first, first.games.dom(), now, ttl);
    let alive = games_waited_for(st, config, now);
    if st.games.contains_key(game) {
        lemma_fresh_is_waiting(st.games[game], config, now);
    }
    assert(first.games.contains_key(game) <==> waiting(st, config, game, now).len() > 0);
    assert(peers_of(first, game) =~= waiting(st, config, game, now));
    assert forall|g: Seq<char>| all.games.dom().contains(g) == alive.contains(g) by {
        if st.games.contains_key(g) {
            lemma_waits_some(st.games[g], config, now);
            lemma_fresh_is_waiting(st.games[g], config, now);
            if g == game {
                if first.games.contains_key(g) {
                    lemma_waits_some(first.games[g], config, now);
                    lemma_fresh_is_waiting(first.games[g], config, now);
                    st.games[g].lemma_filter_pred(waits_at(config, now), 0);
                }
            }
        }
    }
    assert(all.games.dom() =~= alive);
    assert(all.games.dom().subset_of(first.games.dom()));
    vstd::set_lib::lemma_len_subset(all.games.dom(), first.games.dom());
}

proof fn lemma_waits_some(s: Seq<Entry>, config: ServerConfig, now: u128)
    ensures
        s.filter(waits_at(config, now)).len() > 0 <==> exists|k: int|
            0 <= k < s.len() && waits_at(config, now)(#[trigger] s[k]),
{
    let pred = waits_at(config, now);
    if s.filter(pred).len() > 0 {
        s.lemma_filter_pred(pred, 0);
        let source = lemma_filter_source(s, pred);
        assert(s.filter(pred)[0] == s[source[0]]);
        assert(pred(s[source[0]]));
    }
    if exists|k: int| 0 <= k < s.len() && pred(#[trigger] s[k]) {
        let k = choose|k: int| 0 <= k < s.len() && pred(#[trigger] s[k]);
        s.lemma_filter_contains(pred, k);
    }
}

proof fn lemma_filter_ignores(s: Seq<Entry>, pred: spec_fn(Entry) -> bool, i: int, x: Entry)
    requires
        0 <= i < s.len(),
        !pred(s[i]),
        !pred(x),
    ensures
        s.update(i, x).filter(pred) == s.filter(pred),
    decreases s.len(),
{
    reveal(Seq::filter);
    let t = s.update(i, x);
    if i < s.len() - 1 {
        lemma_filter_ignores(s.drop_last(), pred, i, x);
        assert(t.drop_last() =~= s.drop_last().update(i, x));
    } else {
        assert(t.drop_last() =~= s.drop_last());
    }
}

proof fn lemma_others_upserted(s: Seq<Entry>, entry: Entry, capacity: int)
    ensures
        others(upserted(s, entry, capacity), entry.id) == others(s, entry.id),
{
    let pred = |e: Entry| e.id != entry.id;
    lemma_entry_at(s, entry.id);
    let at = entry_at(s, entry.id);
    if at < s.len() {
        lemma_filter_ignores(s, pred, at, entry);
    } else if s.len() < capacity {
        reveal(Seq::filter);
        assert(s.push(entry).drop_last() =~= s);
    }
}

/// How a well-formed request is answered. It is turned down only where nobody waits for
/// the game and as many other games are waited for as the server keeps. Otherwise it is
/// told exactly the peers that still wait for the game, the asking one left out, in the
/// order in which they are listed, and the addresses of those that sent one.
pub proof fn law_answer_is_exact(
    st: Registry,
    config: ServerConfig,
    game: Seq<char>,
    id: Seq<char>,
    session: Option<Seq<char>>,
    addr: Option<Seq<char>>,
    now: u128,
)
    requires
        registry_inv(st),
        well_formed(game, id, session, addr),
    ensures
        ({
            let (next, reply) = bootstrap_handled(st, config, game, id, session, addr, now);
            let rest = waiting(st, config, game, now).filter(|e: Entry| e.id != id);
            if waiting(st, config, game, now).len() == 0 && games_waited_for(st, config, now).len()
                >= config.max_games {
                &&& reply == Reply::Rejected { status: 503, error: "server full"@ }
                &&& next.rejected == st.rejected + 1
                &&& next.requests == st.requests + 1
            } else {
                &&& reply matches Reply::Found { peers, peer_addrs, registered, .. } && {
                    &&& peers == Seq::new(rest.len(), |i: int| rest[i].id)
                    &&& peer_addrs == rest.filter_map(|e: Entry| e.addr)
                    &&& registered == next.games[game].len()
                }
                &&& next.rejected == st.rejected
                &&& next.requests == st.requests + 1
            }
        }),
{
    lemma_readied(st, config, game, now);
    let ready = readied(st, config, game, now);
    let named = match session {
        Some(s) => Registry { sessions: ready.sessions.insert(game, s), ..ready },
        None => ready,
    };
    let base = Registry { sessions: Map::empty(), ..named };
    lemma_inv_left(base, id, game);
    let left = peer_left(named, id, game);
    assert(left.games == peer_left(base, id, game).games);
    assert(peers_of(left, game) == peers_of(ready, game));
    lemma_others_upserted(
        peers_of(ready, game),
        Entry { id, addr, last_seen: now },
        config.max_peers as int,
    );
}

/// What is listed for a game after a peer asked for it: the other peers that still wait, as
/// they were and in their order, and the asking peer with the address that it sent and the
/// time of the request, if it was listed before or there was room for it.
pub proof fn law_listed_after_asking(
    st: Registry,
    config: ServerConfig,
    game: Seq<char>,
    id: Seq<char>,
    session: Option<Seq<char>>,
    addr: Option<Seq<char>>,
    now: u128,
)
    requires
        registry_inv(st),
        well_formed(game, id, session, addr),
        bootstrap_handled(st, config, game, id, session, addr, now).1 is Found,
    ensures
        ({
            let next = bootstrap_handled(st, config, game, id, session, addr, now).0;
            let before = waiting(st, config, game, now);
            let known = exists|k: int| 0 <= k < before.len() && (#[trigger] before[k]).id == id;
            let other = |e: Entry| e.id != id;
            &&& next.games.contains_key(game)
            &&& next.games[game].filter(other) == before.filter(other)
            &&& next.games[game].contains(Entry { id, addr, last_seen: now }) <==> known
                || before.len() < config.max_peers
            &&& next.games[game].len() == before.len() + (if !known && before.len()
                < config.max_peers {
                1int
            } else {
                0int
            })
        }),
{
    lemma_readied(st, config, game, now);
    let ready = readied(st, config, game, now);
    let named = match session {
        Some(s) => Registry { sessions: ready.sessions.insert(game, s), ..ready },
        None => ready,
    };
    let base = Registry { sessions: Map::empty(), ..named };
    lemma_inv_left(base, id, game);
    let left = peer_left(named, id, game);
    assert(left.games == peer_left(base, id, game).games);
    let s = peers_of(ready, game);
    assert(peers_of(left, game) == s);
    let entry = Entry { id, addr, last_seen: now };
    lemma_others_upserted(s, entry, config.max_peers as int);
    lemma_entry_at(s, id);
    let t = upserted(s, entry, config.max_peers as int);
    let at = entry_at(s, id);
    let known = exists|k: int| 0 <= k < s.len() && (#[trigger] s[k]).id == id;
    if known {
        let k = choose|k: int| 0 <= k < s.len() && (#[trigger] s[k]).id == id;
        lemma_entry_listed(s, id, k);
        assert(t[at] == entry);
    } else {
        if at < s.len() {
            assert(s[at].id == id);
        }
        if s.len() < config.max_peers {
            assert(t[s.len() as int] == entry);
        } else {
            assert(t == s);
            if t.contains(entry) {
                let i = choose|i: int| 0 <= i < t.len() && t[i] == entry;
                assert(s[i].id == id);
            }
        }
    }
}

/// A peer that asked for a game is named to every other peer that asks for the game next,
/// until as many seconds later as the set-up says, and not from then on.
pub proof fn law_named_for_the_time_to_live(
    st: Registry,
    config: ServerConfig,
    game: Seq<char>,
    first: Request,
    second: Request,
)
    requires
        registry_inv(st),
        first.game == game,
        second.game == game,
        first.id != second.id,
        well_formed(game, first.id, first.session, first.addr),
        well_formed(game, second.id, second.session, second.addr),
        waiting(st, config, game, first.now).len() < config.max_peers,
        bootstrap_handled(
            st,
            config,
            game,
            first.id,
            first.session,
            first.addr,
            first.now,
        ).1 is Found,
    ensures
        ({
            let middle = bootstrap_handled(
                st,
                config,
                game,
                first.id,
                first.session,
                first.addr,
                first.now,
            ).0;
            let reply = bootstrap_handled(
                middle,
                config,
                game,
                second.id,
                second.session,
                second.addr,
                second.now,
            ).1;
            let ends = first.now + config.ttl * 1_000_000_000;
            &&& first.now <= second.now < ends ==> (reply matches Reply::Found {
                peers,
                peer_addrs,
                ..
            } && peers.contains(first.id) && (first.addr matches Some(a) ==> peer_addrs.contains(
                a,
            )))
            &&& second.now >= ends ==> (reply matches Reply::Found { peers, .. }
                ==> !peers.contains(first.id))
        }),
{
    let middle = bootstrap_handled(
        st,
        config,
        game,
        first.id,
        first.session,
        first.addr,
        first.now,
    ).0;
    law_registry_stays_sound(
        st,
        config,
        game,
        first.id,
        first.session,
        first.addr,
        first.now,
    );
    law_listed_after_asking(
        st,
        config,
        game,
        first.id,
        first.session,
        first.addr,
        first.now,
    );
    let entry = Entry { id: first.id, addr: first.addr, last_seen: first.now };
    let s = middle.games[game];
    let k = choose|k: int| 0 <= k < s.len() && s[k] == entry;
    law_time_to_live(entry, config, second.now);
    law_answer_is_exact(
        middle,
        config,
        game,
        second.id,
        second.session,
        second.addr,
        second.now,
    );
    if first.now <= second.now < first.now + config.ttl * 1_000_000_000 {
        law_waiting_peer_is_found(
            middle,
            config,
            game,
            k,
            second.id,
            second.session,
            second.addr,
            second.now,
        );
    }
    if second.now >= first.now + config.ttl * 1_000_000_000 {
        let alive = s.filter(waits_at(config, second.now));
        let other = |e: Entry| e.id != second.id;
        let rest = alive.filter(other);
        let ids = Seq::new(rest.len(), |i: int| rest[i].id);
        if ids.contains(first.id) {
            let i = choose|i: int| 0 <= i < ids.len() && ids[i] == first.id;
            let from_alive = lemma_filter_source(alive, other);
            let from_all = lemma_filter_source(s, waits_at(config, second.now));
            let j = from_alive[i];
            assert(rest[i] == alive[j]);
            assert(alive[j] == s[from_all[j]]);
            assert(s[from_all[j]].id == first.id);
            assert(from_all[j] == k);
            s.lemma_filter_pred(waits_at(config, second.now), j);
        }
    }
}

/// A peer waits for one game only: asking for a game takes it off all others.
pub proof fn law_asking_leaves_other_games(
    st: Registry,
    config: ServerConfig,
    game: Seq<char>,
    id: Seq<char>,
    session: Option<Seq<char>>,
    addr: Option<Seq<char>>,
    now: u128,
    g: Seq<char>,
    i: int,
)
    requires
        registry_inv(st),
        bootstrap_handled(st, config, game, id, session, addr, now).1 is Found,
        g != game,
        bootstrap_handled(st, config, game, id, session, addr, now).0.games.contains_key(g),
        0 <= i < bootstrap_handled(st, config, game, id, session, addr, now).0.games[g].len(),
    ensures
        bootstrap_handled(st, config, game, id, session, addr, now).0.games[g][i].id != id,
{
    let ready = readied(st, config, game, now);
    lemma_readied(st, config, game, now);
    let named = match session {
        Some(s) => Registry { sessions: ready.sessions.insert(game, s), ..ready },
        None => ready,
    };
    let base = Registry { sessions: Map::empty(), ..named };
    lemma_inv_left(base, id, game);
    let left = peer_left(named, id, game);
    let bare = peer_left(base, id, game);
    assert(left.games == bare.games && left.peer_game == bare.peer_game);
    assert(left.games.contains_key(g));
    assert(left.games[g][i] == bootstrap_handled(
        st,
        config,
        game,
        id,
        session,
        addr,
        now,
    ).0.games[g][i]);
    assert(bare.peer_game.contains_key(bare.games[g][i].id));
}

/// Nobody who still waits is lost by what others ask: a peer that waits for another game
/// stays listed for it as it is, unless it is the one that asks.
pub proof fn law_others_keep_waiting(
    st: Registry,
    config: ServerConfig,
    game: Seq<char>,
    id: Seq<char>,
    session: Option<Seq<char>>,
    addr: Option<Seq<char>>,
    now: u128,
    g: Seq<char>,
    k: int,
)
    requires
        registry_inv(st),
        st.games.contains_key(g),
        0 <= k < st.games[g].len(),
        st.games[g][k].id != id,
        config.ttl > 0,
        now < st.games[g][k].last_seen + config.ttl * 1_000_000_000,
    ensures
        ({
            let next = bootstrap_handled(st, config, game, id, session, addr, now).0;
            next.games.contains_key(g) && next.games[g].contains(st.games[g][k])
        }),
{
    let e = st.games[g][k];
    let ttl = ttl_nanos(config);
    let pred = |e: Entry| is_fresh(e, now, ttl);
    law_time_to_live(e, config, now);
    if well_formed(game, id, session, addr) {
        let counted = Registry { requests: st.requests + 1, ..st };
        let of = set![game];
        lemma_inv_evicted(counted, of, now, ttl);
        let first = evicted(counted, of, now, ttl);
        lemma_kept_by_eviction(counted, of, now, ttl, g, e);
        lemma_inv_evicted(first, first.games.dom(), now, ttl);
        lemma_kept_by_eviction(first, first.games.dom(), now, ttl, g, e);
        lemma_readied(st, config, game, now);
        let ready = readied(st, config, game, now);
        assert(ready.games.contains_key(g) && ready.games[g].contains(e));
        let named = match session {
            Some(s) => Registry { sessions: ready.sessions.insert(game, s), ..ready },
            None => ready,
        };
        let base = Registry { sessions: Map::empty(), ..named };
        lemma_inv_left(base, id, game);
        let left = peer_left(named, id, game);
        assert(left.games == peer_left(base, id, game).games);
        let s = ready.games[g];
        let i = choose|i: int| 0 <= i < s.len() && s[i] == e;
        if named.peer_game.contains_key(id) && named.peer_game[id] != game && named.peer_game[id]
            == g {
            let other = |e: Entry| e.id != id;
            assert(other(s[i]));
            s.lemma_filter_contains(other, i);
        }
        assert(left.games.contains_key(g) && left.games[g].contains(e));
        if g == game {
            let t = left.games[g];
            let j = choose|j: int| 0 <= j < t.len() && t[j] == e;
            let u = upserted(
                peers_of(left, game),
                Entry { id, addr, last_seen: now },
                config.max_peers as int,
            );
            lemma_entry_at(t, id);
            assert(u[j] == e);
        }
    } else {
        assert(st.games[g][k] == e);
    }
}

proof fn lemma_kept_by_eviction(
    st: Registry,
    of: Set<Seq<char>>,
    now: u128,
    ttl: u128,
    g: Seq<char>,
    e: Entry,
)
    requires
        st.games.contains_key(g),
        st.games[g].contains(e),
        is_fresh(e, now, ttl),
    ensures
        evicted(st, of, now, ttl).games.contains_key(g),
        evicted(st, of, now, ttl).games[g].contains(e),
{
    let s = st.games[g];
    let pred = |e: Entry| is_fresh(e, now, ttl);
    let i = choose|i: int| 0 <= i < s.len() && s[i] == e;
    assert(pred(s[i]));
    s.lemma_filter_contains(pred, i);
}

/// Which texts a server takes: a game and a session are 64 hexadecimal digits of either
/// case, an identity has one to 128 letters, digits, dashes and underscores, and an address
/// one to 8192 of them.
pub proof fn law_texts_that_are_taken(s: Seq<char>)
    ensures
        is_hash(s) <==> s.len() == 64 && forall|i: int|
            0 <= i < s.len() ==> {
                let c = #[trigger] s[i] as int;
                48 <= c <= 57 || 65 <= c <= 70 || 97 <= c <= 102
            },
        is_token(s, MAX_PEER_ID_LEN as int) <==> 1 <= s.len() <= 128 && forall|i: int|
            0 <= i < s.len() ==> {
                let c = #[trigger] s[i] as int;
                48 <= c <= 57 || 65 <= c <= 90 || 97 <= c <= 122 || c == 45 || c == 95
            },
        is_token(s, MAX_ADDR_LEN as int) <==> 1 <= s.len() <= 8192 && forall|i: int|
            0 <= i < s.len() ==> {
                let c = #[trigger] s[i] as int;
                48 <= c <= 57 || 65 <= c <= 90 || 97 <= c <= 122 || c == 45 || c == 95
            },
{
    assert forall|i: int| 0 <= i < s.len() implies encoding::is_hex_digit(#[trigger] s[i]) == ({
        let c = s[i] as int;
        48 <= c <= 57 || 65 <= c <= 70 || 97 <= c <= 102
    }) by {}
    assert forall|i: int| 0 <= i < s.len() implies encoding::is_url_safe_char(#[trigger] s[i]) == ({
        let c = s[i] as int;
        48 <= c <= 57 || 65 <= c <= 90 || 97 <= c <= 122 || c == 45 || c == 95
    }) by {}
}

/// An ill-formed request is turned down with the first of its faults, and changes nothing
/// but the count of requests that were turned down.
pub proof fn law_ill_formed_requests(
    st: Registry,
    config: ServerConfig,
    game: Seq<char>,
    id: Seq<char>,
    session: Option<Seq<char>>,
    addr: Option<Seq<char>>,
    now: u128,
)
    requires
        !well_formed(game, id, session, addr),
    ensures
        ({
            let (next, reply) = bootstrap_handled(st, config, game, id, session, addr, now);
            let named = is_hash(game) && is_token(id, 128);
            let session_fits = session matches Some(s) ==> is_hash(s);
            &&& next.games == st.games
            &&& next.peer_game == st.peer_game
            &&& next.sessions == st.sessions
            &&& next.requests == st.requests
            &&& next.rejected == st.rejected + 1
            &&& reply == Reply::Rejected {
                status: 400,
                error: if !named {
                    "invalid request"@
                } else if !session_fits {
                    "invalid session"@
                } else {
                    "invalid address"@
                },
            }
        }),
{
}

/// The session that a request is told: the one that it names itself, or else the one that
/// was named before for a game that is still waited for, or else the game. What a request
/// names is kept for those after it.
pub proof fn law_session_told(
    st: Registry,
    config: ServerConfig,
    game: Seq<char>,
    id: Seq<char>,
    session: Option<Seq<char>>,
    addr: Option<Seq<char>>,
    now: u128,
)
    requires
        registry_inv(st),
        well_formed(game, id, session, addr),
        bootstrap_handled(st, config, game, id, session, addr, now).1 is Found,
    ensures
        ({
            let (next, reply) = bootstrap_handled(st, config, game, id, session, addr, now);
            let told = match session {
                Some(s) => s,
                None => if st.sessions.contains_key(game) && waiting(st, config, game, now).len()
                    > 0 {
                    st.sessions[game]
                } else {
                    game
                },
            };
            &&& reply matches Reply::Found { session: said, .. } && said == told
            &&& session matches Some(s) ==> next.sessions.contains_key(game) && next.sessions[game]
                == s
            &&& session is None ==> (next.sessions.contains_key(game) <==> st.sessions.contains_key(
                game,
            ) && waiting(st, config, game, now).len() > 0)
        }),
{
    let ttl = ttl_nanos(config);
    lemma_readied(st, config, game, now);
    let ready = readied(st, config, game, now);
    let counted = Registry { requests: st.requests + 1, ..st };
    let first = evicted(counted, set![game], now, ttl);
    lemma_inv_evicted(counted, set![game], now, ttl);
    if st.games.contains_key(game) {
        lemma_fresh_is_waiting(st.games[game], config, now);
    }
    if st.sessions.contains_key(game) {
        assert(st.games.contains_key(game));
    }
    assert(ready.sessions.contains_key(game) ==> ready.games.contains_key(game));
    assert(ready.games.contains_key(game) ==> ready == first);
    let named = match session {
        Some(s) => Registry { sessions: ready.sessions.insert(game, s), ..ready },
        None => ready,
    };
    let left = peer_left(named, id, game);
    assert(left.sessions.contains_key(game) == named.sessions.contains_key(game));
}

/// What a server is set up with where nothing else is said: it keeps at most twenty peers
/// for a game and a hundred thousand games, for eight minutes.
pub proof fn law_default_limits(e: Entry, now: u128)
    ensures
        default_config().max_peers == 20,
        default_config().max_games == 100 * 1000,
        default_config().port == 5000,
        !default_config().verbose,
        forall|i: int| 0 <= i < 4 ==> #[trigger] default_config().bind[i] == 0,
        waits_at(default_config(), now)(e) <==> now < e.last_seen + 8 * 60 * 1_000_000_000,
{
}

proof fn lemma_still_listed(
    config: ServerConfig,
    asked: Seq<Request>,
    between: Seq<Request>,
    game: Seq<char>,
    e: Entry,
)
    requires
        requests_handled(config, asked).games.contains_key(game),
        requests_handled(config, asked).games[game].contains(e),
        config.ttl > 0,
        forall|i: int|
            0 <= i < between.len() ==> (#[trigger] between[i]).id != e.id && between[i].now
                < e.last_seen + config.ttl * 1_000_000_000,
    ensures
        requests_handled(config, asked + between).games.contains_key(game),
        requests_handled(config, asked + between).games[game].contains(e),
    decreases between.len(),
{
    if between.len() == 0 {
        assert(asked + between =~= asked);
    } else {
        let rest = between.drop_last();
        let last = between.last();
        assert forall|i: int| 0 <= i < rest.len() implies (#[trigger] rest[i]).id != e.id
            && rest[i].now < e.last_seen + config.ttl * 1_000_000_000 by {
            assert(rest[i] == between[i]);
        }
        lemma_still_listed(config, asked, rest, game, e);
        assert((asked + between).drop_last() =~= asked + rest);
        assert((asked + between).last() == last);
        assert(between[between.len() - 1] == last);
        let st = requests_handled(config, asked + rest);
        law_registry_over_time(config, asked + rest);
        let k = choose|k: int| 0 <= k < st.games[game].len() && st.games[game][k] == e;
        law_others_keep_waiting(
            st,
            config,
            last.game,
            last.id,
            last.session,
            last.addr,
            last.now,
            game,
            k,
        );
    }
}

/// A peer that asked for a game, and was listed, is named to every other peer that asks for
/// the game within as many seconds as the set-up says, whatever a server was asked before,
/// and whatever others ask it in between.
pub proof fn law_named_whatever_others_ask(
    config: ServerConfig,
    before: Seq<Request>,
    first: Request,
    between: Seq<Request>,
    second: Request,
)
    requires
        well_formed(first.game, first.id, first.session, first.addr),
        well_formed(second.game, second.id, second.session, second.addr),
        first.game == second.game,
        first.id != second.id,
        bootstrap_handled(
            requests_handled(config, before),
            config,
            first.game,
            first.id,
            first.session,
            first.addr,
            first.now,
        ).1 is Found,
        waiting(requests_handled(config, before), config, first.game, first.now).len()
            < config.max_peers,
        forall|i: int|
            0 <= i < between.len() ==> (#[trigger] between[i]).id != first.id && between[i].now
                < first.now + config.ttl * 1_000_000_000,
        second.now < first.now + config.ttl * 1_000_000_000,
        config.ttl > 0,
    ensures
        bootstrap_handled(
            requests_handled(config, before.push(first) + between),
            config,
            second.game,
            second.id,
            second.session,
            second.addr,
            second.now,
        ).1 matches Reply::Found { peers, peer_addrs, .. } && peers.contains(first.id) && (
        first.addr matches Some(a) ==> peer_addrs.contains(a)),
{
    let asked = before.push(first);
    assert(asked.drop_last() =~= before);
    law_registry_over_time(config, before);
    law_listed_after_asking(
        requests_handled(config, before),
        config,
        first.game,
        first.id,
        first.session,
        first.addr,
        first.now,
    );
    let e = Entry { id: first.id, addr: first.addr, last_seen: first.now };
    lemma_still_listed(config, asked, between, first.game, e);
    let st = requests_handled(config, asked + between);
    law_registry_over_time(config, asked + between);
    let k = choose|k: int| 0 <= k < st.games[first.game].len() && st.games[first.game][k] == e;
    law_time_to_live(e, config, second.now);
    law_waiting_peer_is_found(
        st,
        config,
        second.game,
        k,
        second.id,
        second.session,
        second.addr,
        second.now,
    );
}

proof fn lemma_eviction_adds_nothing(
    st: Registry,
    of: Set<Seq<char>>,
    now: u128,
    ttl: u128,
    g: Seq<char>,
    i: int,
)
    requires
        evicted(st, of, now, ttl).games.contains_key(g),
        0 <= i < evicted(st, of, now, ttl).games[g].len(),
    ensures
        st.games.contains_key(g),
        st.games[g].contains(evicted(st, of, now, ttl).games[g][i]),
{
    let pred = |e: Entry| is_fresh(e, now, ttl);
    let s = st.games[g];
    if of.contains(g) {
        let source = lemma_filter_source(s, pred);
        assert(fresh_entries(s, now, ttl)[i] == s[source[i]]);
    }
}

proof fn lemma_request_adds_asker(
    st: Registry,
    config: ServerConfig,
    game: Seq<char>,
    id: Seq<char>,
    session: Option<Seq<char>>,
    addr: Option<Seq<char>>,
    now: u128,
    g: Seq<char>,
    i: int,
)
    requires
        registry_inv(st),
        bootstrap_handled(st, config, game, id, session, addr, now).0.games.contains_key(g),
        0 <= i < bootstrap_handled(st, config, game, id, session, addr, now).0.games[g].len(),
    ensures
        ({
            let e = bootstrap_handled(st, config, game, id, session, addr, now).0.games[g][i];
            ||| st.games.contains_key(g) && st.games[g].contains(e)
            ||| g == game && e == (Entry { id, addr, last_seen: now }) && well_formed(
                game,
                id,
                session,
                addr,
            )
        }),
{
    let next = bootstrap_handled(st, config, game, id, session, addr, now).0;
    let e = next.games[g][i];
    if well_formed(game, id, session, addr) {
        let ttl = ttl_nanos(config);
        let counted = Registry { requests: st.requests + 1, ..st };
        let of = set![game];
        let first = evicted(counted, of, now, ttl);
        let ready = readied(st, config, game, now);
        lemma_readied(st, config, game, now);
        let named = match session {
            Some(s) => Registry { sessions: ready.sessions.insert(game, s), ..ready },
            None => ready,
        };
        let base = Registry { sessions: Map::empty(), ..named };
        lemma_inv_left(base, id, game);
        let left = peer_left(named, id, game);
        assert(left.games == peer_left(base, id, game).games);
        let entry = Entry { id, addr, last_seen: now };
        let s = peers_of(left, game);
        let t = upserted(s, entry, config.max_peers as int);
        lemma_entry_at(s, id);
        if next.rejected == st.rejected && !(g == game && e == entry) {
            if g == game {
                assert(e == t[i]);
                assert(s[i] == e);
            }
            assert(left.games.contains_key(g) && left.games[g].contains(e)) by {
                assert(left.games[g][i] == e);
            }
            if named.peer_game.contains_key(id) && named.peer_game[id] != game
                && named.peer_game[id] == g {
                let other = |x: Entry| x.id != id;
                let source = lemma_filter_source(ready.games[g], other);
                assert(ready.games[g][source[i]] == e);
            }
            assert(ready.games.contains_key(g) && ready.games[g].contains(e));
            let j = choose|j: int| 0 <= j < ready.games[g].len() && ready.games[g][j] == e;
            if ready != first {
                lemma_eviction_adds_nothing(first, first.games.dom(), now, ttl, g, j);
            }
            let k = choose|k: int| 0 <= k < first.games[g].len() && first.games[g][k] == e;
            lemma_eviction_adds_nothing(counted, of, now, ttl, g, k);
        } else if next.rejected != st.rejected {
            assert(next.games == ready.games);
            if ready != first {
                lemma_eviction_adds_nothing(first, first.games.dom(), now, ttl, g, i);
            }
            let k = choose|k: int| 0 <= k < first.games[g].len() && first.games[g][k] == e;
            lemma_eviction_adds_nothing(counted, of, now, ttl, g, k);
        }
    } else {
        assert(st.games[g][i] == e);
    }
}

/// Only those are listed for a game who have asked for it with a well-formed request, with
/// the address and the time of one.
pub proof fn law_listed_have_asked(
    config: ServerConfig,
    asked: Seq<Request>,
    g: Seq<char>,
    i: int,
)
    requires
        requests_handled(config, asked).games.contains_key(g),
        0 <= i < requests_handled(config, asked).games[g].len(),
    ensures
        ({
            let e = requests_handled(config, asked).games[g][i];
            exists|k: int|
                0 <= k < asked.len() && (#[trigger] asked[k]).game == g && asked[k].id == e.id
                    && asked[k].addr == e.addr && asked[k].now == e.last_seen && well_formed(
                    g,
                    asked[k].id,
                    asked[k].session,
                    asked[k].addr,
                )
        }),
    decreases asked.len(),
{
    let e = requests_handled(config, asked).games[g][i];
    let rest = asked.drop_last();
    let last = asked.last();
    let st = requests_handled(config, rest);
    law_registry_over_time(config, rest);
    lemma_request_adds_asker(
        st,
        config,
        last.game,
        last.id,
        last.session,
        last.addr,
        last.now,
        g,
        i,
    );
    if st.games.contains_key(g) && st.games[g].contains(e) {
        let j = choose|j: int| 0 <= j < st.games[g].len() && st.games[g][j] == e;
        law_listed_have_asked(config, rest, g, j);
        let k = choose|k: int|
            0 <= k < rest.len() && (#[trigger] rest[k]).game == g && rest[k].id == e.id
                && rest[k].addr == e.addr && rest[k].now == e.last_seen && well_formed(
                g,
                rest[k].id,
                rest[k].session,
                rest[k].addr,
            );
        assert(asked[k] == rest[k]);
    } else {
        assert(asked[asked.len() - 1] == last);
    }
}

/// A request does not touch the sessions of other games: while such a game is there, what was
/// named for it stays.
pub proof fn law_other_sessions_are_kept(
    st: Registry,
    config: ServerConfig,
    game: Seq<char>,
    id: Seq<char>,
    session: Option<Seq<char>>,
    addr: Option<Seq<char>>,
    now: u128,
    g: Seq<char>,
)
    requires
        registry_inv(st),
        g != game,
        bootstrap_handled(st, config, game, id, session, addr, now).0.games.contains_key(g),
    ensures
        ({
            let next = bootstrap_handled(st, config, game, id, session, addr, now).0;
            &&& next.sessions.contains_key(g) == st.sessions.contains_key(g)
            &&& st.sessions.contains_key(g) ==> next.sessions[g] == st.sessions[g]
        }),
{
    if well_formed(game, id, session, addr) {
        let ready = readied(st, config, game, now);
        lemma_readied(st, config, game, now);
        let named = match session {
            Some(s) => Registry { sessions: ready.sessions.insert(game, s), ..ready },
            None => ready,
        };
        let left = peer_left(named, id, game);
        assert(ready.games.contains_key(g));
    }
}

} // verus!
