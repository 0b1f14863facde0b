//! Reading a running game: parses the messages that Slippi sends, and turns
//! them into game events and controller inputs.

use std::collections::HashMap;

use vstd::prelude::*;
use vstd::slice::*;
use vstd::string::*;

use crate::crypter::CrypterInput;
use crate::crypto;
use crate::encoding;
use crate::text;

verus! {

broadcast use vstd::std_specs::hash::group_hash_axioms;

/// A player of a game.
#[derive(Clone, Copy, Debug)]
pub struct PlayerMeta {
    /// Controller port, counted from one.
    pub port: u8,
    /// Character, or 255 while it is not known.
    pub char: u8,
    /// Costume.
    pub color: u8,
    /// Team.
    pub team: u8,
    /// Whether the computer plays.
    pub cpu: bool,
}

impl PlayerMeta {
    /// A player.
    pub fn new(port: u8, char: u8, color: u8, team: u8, cpu: bool) -> (player: PlayerMeta)
        ensures
            player == (PlayerMeta { port, char, color, team, cpu }),
    {
        Self { port, char, color, team, cpu }
    }
}

/// What is known of a game.
#[derive(Debug)]
pub struct GameMeta {
    /// Stage, or 255 while it is not known.
    pub stage: u8,
    /// Whether the game is played in teams.
    pub is_teams: bool,
    /// The players.
    pub players: Vec<PlayerMeta>,
    /// Seed of the game's random numbers.
    pub seed: u32,
    /// Version of Slippi.
    pub slp_version: [u8; 3],
}

/// Mathematical value of a [`GameMeta`].
#[verifier::ext_equal]
pub struct Meta {
    /// Stage.
    pub stage: u8,
    /// Whether the game is played in teams.
    pub is_teams: bool,
    /// The players.
    pub players: Seq<PlayerMeta>,
    /// Seed of the game's random numbers.
    pub seed: u32,
    /// Version of Slippi.
    pub slp_version: Seq<u8>,
}

impl View for GameMeta {
    type V = Meta;

    open spec fn view(&self) -> Meta {
        Meta {
            stage: self.stage,
            is_teams: self.is_teams,
            players: self.players@,
            seed: self.seed,
            slp_version: self.slp_version@,
        }
    }
}

/// A game of which nothing is known.
pub open spec fn unknown_game() -> Meta {
    Meta {
        stage: 255,
        is_teams: false,
        players: Seq::empty(),
        seed: 0,
        slp_version: seq![0u8, 0u8, 0u8],
    }
}

impl GameMeta {
    /// A game of which nothing is known.
    pub fn new() -> (meta: GameMeta)
        ensures
            meta@ == unknown_game(),
    {
        let meta = Self {
            stage: u8::MAX,
            is_teams: false,
            players: Vec::new(),
            seed: 0,
            slp_version: [0, 0, 0],
        };
        assert(meta@ =~= unknown_game());
        meta
    }
}

impl Clone for GameMeta {
    fn clone(&self) -> (copy: GameMeta)
        ensures
            copy@ == self@,
    {
        let mut players: Vec<PlayerMeta> = Vec::new();
        let mut i: usize = 0;
        while i < self.players.len()
            invariant
                i <= self.players@.len(),
                players@ == self.players@.take(i as int),
            decreases self.players@.len() - i,
        {
            players.push(self.players[i]);
            i += 1;
            assert(players@ =~= self.players@.take(i as int));
        }
        assert(players@ =~= self.players@);
        GameMeta {
            stage: self.stage,
            is_teams: self.is_teams,
            players,
            seed: self.seed,
            slp_version: self.slp_version,
        }
    }
}

/// What the reader reports of the game.
#[derive(Clone, Debug)]
pub enum DolphinEvent {
    /// A game has started.
    NewGame(GameMeta),
    /// The game has ended.
    GameEnd,
    /// The connection is lost.
    Disconnected,
}

/// Controller inputs of a single frame.
#[derive(Debug)]
pub struct InputFrame {
    /// The frame.
    pub frame: i64,
    /// The last frame that can no longer be rolled back.
    pub last_finalized_frame: i64,
    /// The inputs of the frame.
    pub data: Vec<u8>,
}

impl InputFrame {
    /// The inputs of a frame.
    pub fn new(frame: i64, last_finalized_frame: i64, data: Vec<u8>) -> (input: InputFrame)
        ensures
            input == (InputFrame { frame, last_finalized_frame, data }),
    {
        Self { frame, last_finalized_frame, data }
    }
}

/// The events of a replay stream that the reader tells apart.
#[derive(Copy, Clone, Debug, PartialEq, Eq, Structural)]
pub enum SLPEventType {
    /// Gecko codes.
    GeckoCodes,
    /// Sizes of the other events.
    Payloads,
    /// Start of a game.
    GameStart,
    /// A player's inputs, before a frame is computed.
    PreFrame,
    /// A player's state, after a frame was computed.
    PostFrame,
    /// End of a game.
    GameEnd,
    /// Start of a frame.
    FrameStart,
    /// An item.
    ItemUpdate,
    /// End of a frame.
    FrameBookend,
}

/// The event that a command byte stands for.
pub open spec fn event_type_of(b: u8) -> Option<SLPEventType> {
    if b == 0x10 {
        Some(SLPEventType::GeckoCodes)
    } else if b == 0x35 {
        Some(SLPEventType::Payloads)
    } else if b == 0x36 {
        Some(SLPEventType::GameStart)
    } else if b == 0x37 {
        Some(SLPEventType::PreFrame)
    } else if b == 0x38 {
        Some(SLPEventType::PostFrame)
    } else if b == 0x39 {
        Some(SLPEventType::GameEnd)
    } else if b == 0x3a {
        Some(SLPEventType::FrameStart)
    } else if b == 0x3b {
        Some(SLPEventType::ItemUpdate)
    } else if b == 0x3c {
        Some(SLPEventType::FrameBookend)
    } else {
        None
    }
}

impl SLPEventType {
    /// The event that a command byte stands for.
    pub fn from_byte(b: u8) -> (event: Option<SLPEventType>)
        ensures
            event == event_type_of(b),
    {
        match b {
            0x10 => Some(SLPEventType::GeckoCodes),
            0x35 => Some(SLPEventType::Payloads),
            0x36 => Some(SLPEventType::GameStart),
            0x37 => Some(SLPEventType::PreFrame),
            0x38 => Some(SLPEventType::PostFrame),
            0x39 => Some(SLPEventType::GameEnd),
            0x3a => Some(SLPEventType::FrameStart),
            0x3b => Some(SLPEventType::ItemUpdate),
            0x3c => Some(SLPEventType::FrameBookend),
            _ => None,
        }
    }
}

/// What the reader passes on, in the order in which it does.
#[derive(Debug)]
pub enum ReaderOutput {
    /// For the crypter, where there is one.
    Crypter(CrypterInput),
    /// For the session.
    Event(DolphinEvent),
}

/// Mathematical value of a [`ReaderOutput`].
pub enum Signal {
    /// Inputs of a frame for the crypter.
    Frame { frame: i64, last_finalized_frame: i64, data: Seq<u8> },
    /// A new game for the crypter.
    Reset(Meta),
    /// A new game for the session.
    NewGame(Meta),
    /// End of the game for the session.
    GameEnd,
    /// Loss of the connection for the session.
    Disconnected,
}

impl View for ReaderOutput {
    type V = Signal;

    open spec fn view(&self) -> Signal {
        match self {
            ReaderOutput::Crypter(CrypterInput::Frame(input)) => Signal::Frame {
                frame: input.frame,
                last_finalized_frame: input.last_finalized_frame,
                data: input.data@,
            },
            ReaderOutput::Crypter(CrypterInput::Reset(meta)) => Signal::Reset(meta@),
            ReaderOutput::Event(DolphinEvent::NewGame(meta)) => Signal::NewGame(meta@),
            ReaderOutput::Event(DolphinEvent::GameEnd) => Signal::GameEnd,
            ReaderOutput::Event(DolphinEvent::Disconnected) => Signal::Disconnected,
        }
    }
}

/// Values of some outputs.
pub open spec fn signals(outputs: Seq<ReaderOutput>) -> Seq<Signal> {
    Seq::new(outputs.len(), |i: int| outputs[i]@)
}

// ---------------------------------------------------------------------------
// The replay stream
// ---------------------------------------------------------------------------
/// What the reader knows while it is connected.
#[verifier::ext_equal]
pub struct ReaderState {
    /// The game.
    pub meta: Meta,
    /// Whether the game was reported.
    pub sent_meta: bool,
    /// Length of each event, command byte included, by command byte; zero while
    /// it is not known.
    pub sizes: Seq<u32>,
    /// Controller inputs by frame and player.
    pub inputs: Map<i64, Seq<u8>>,
}

/// What the reader knows when it has just connected.
pub open spec fn fresh_state() -> ReaderState {
    ReaderState {
        meta: unknown_game(),
        sent_meta: false,
        sizes: Seq::new(256, |i: int| 0u32),
        inputs: Map::empty(),
    }
}

/// The signed 32-bit number that four bytes stand for, most significant first.
pub open spec fn be_i32(a: u8, b: u8, c: u8, d: u8) -> i64 {
    let n = text::be_u32(a, b, c, d);
    if n < 0x8000_0000 {
        n as i64
    } else {
        (n - 0x1_0000_0000) as i64
    }
}

/// One number for a frame and a player.
pub open spec fn input_key(frame: i64, player: int) -> i64 {
    (frame * 256 + player) as i64
}

/// Length of the event at the front of a stream; none where the stream ends, is
/// cut short or goes on with an event of unknown length.
pub open spec fn next_event(sizes: Seq<u32>, s: Seq<u8>) -> Option<int> {
    if s.len() == 0 || s[0] == 0 {
        None
    } else if s[0] == 0x35 {
        if s.len() < 2 || s[1] >= s.len() {
            None
        } else {
            Some(s[1] + 1)
        }
    } else if sizes[s[0] as int] == 0 || sizes[s[0] as int] > s.len() {
        None
    } else {
        Some(sizes[s[0] as int] as int)
    }
}

/// Sizes after the first `k` entries of a payload-sizes event: each entry is a
/// command byte and the length of the event without that byte.
pub open spec fn sizes_with(sizes: Seq<u32>, e: Seq<u8>, k: int) -> Seq<u32>
    decreases k,
{
    if k <= 0 {
        sizes
    } else {
        sizes_with(sizes, e, k - 1).update(
            e[3 * k - 1] as int,
            (e[3 * k] * 256 + e[3 * k + 1] + 1) as u32,
        )
    }
}

/// How many entries a payload-sizes event has, behind the command byte and the
/// byte that gives its length.
pub open spec fn size_entries(e: Seq<u8>) -> int {
    if e.len() < 2 {
        0
    } else {
        (e.len() - 2) / 3
    }
}

/// The byte at an offset, or zero behind the end.
pub open spec fn byte_or_zero(e: Seq<u8>, i: int) -> u8 {
    if i < e.len() {
        e[i]
    } else {
        0
    }
}

/// The player that a game-start event describes at an index.
pub open spec fn started_player(e: Seq<u8>, i: int) -> PlayerMeta {
    PlayerMeta {
        port: (i + 1) as u8,
        char: 255,
        color: byte_or_zero(e, 0x68 + 0x24 * i),
        team: byte_or_zero(e, 0x6e + 0x24 * i),
        cpu: 0x66 + 0x24 * i < e.len() && e[0x66 + 0x24 * i] != 1,
    }
}

/// The game that a game-start event describes.
pub open spec fn started_game(e: Seq<u8>) -> Meta {
    if e.len() > 0x80 {
        Meta {
            stage: e[0x14],
            is_teams: e[0x0d] != 0 || e[0x0e] != 0,
            players: Seq::new(4, |i: int| started_player(e, i)),
            seed: if e.len() > 0x140 {
                text::be_u32(e[0x13d], e[0x13e], e[0x13f], e[0x140])
            } else {
                0
            },
            slp_version: seq![e[1], e[2], e[3]],
        }
    } else {
        unknown_game()
    }
}

/// Index of the first player at a port; the number of players if there is none.
pub open spec fn player_at(players: Seq<PlayerMeta>, port: int) -> int
    decreases players.len(),
{
    if players.len() == 0 || players[0].port == port {
        0
    } else {
        1 + player_at(players.skip(1), port)
    }
}

/// The game with only those players whose character is known.
pub open spec fn with_known_players(meta: Meta) -> Meta {
    Meta { players: meta.players.filter(|p: PlayerMeta| p.char != 255), ..meta }
}

/// What a post-frame event tells. The first one of a player gives the player's
/// character; a second one of the same player reports the game, with those
/// players whose character is known by then.
pub open spec fn after_post_frame(r: ReaderState, e: Seq<u8>) -> (ReaderState, Seq<Signal>) {
    let p = player_at(r.meta.players, e[5] + 1);
    if r.sent_meta || e.len() < 8 || p >= r.meta.players.len() {
        (r, Seq::empty())
    } else if r.meta.players[p].char != 255 {
        let meta = with_known_players(r.meta);
        (
            ReaderState { meta, sent_meta: true, ..r },
            seq![Signal::Reset(meta), Signal::NewGame(meta)],
        )
    } else {
        let player = PlayerMeta { char: e[7], ..r.meta.players[p] };
        (
            ReaderState {
                meta: Meta { players: r.meta.players.update(p, player), ..r.meta },
                ..r
            },
            Seq::empty(),
        )
    }
}

/// Inputs of a player in a frame; empty if there are none.
pub open spec fn inputs_of(inputs: Map<i64, Seq<u8>>, frame: i64, player: int) -> Seq<u8> {
    if inputs.contains_key(input_key(frame, player)) {
        inputs[input_key(frame, player)]
    } else {
        Seq::empty()
    }
}

/// The inputs that a finished frame contributes.
pub open spec fn frame_data(inputs: Map<i64, Seq<u8>>, frame: i64) -> Seq<u8> {
    inputs_of(inputs, frame, 1) + inputs_of(inputs, frame, 2) + inputs_of(inputs, frame, 3)
}

/// What one event does to the reader, and what the reader passes on.
pub open spec fn event_applied(r: ReaderState, e: Seq<u8>) -> (ReaderState, Seq<Signal>) {
    match event_type_of(e[0]) {
        Some(SLPEventType::Payloads) => (
            ReaderState { sizes: sizes_with(r.sizes, e, size_entries(e)), ..r },
            Seq::empty(),
        ),
        Some(SLPEventType::GameStart) => (
            ReaderState { meta: started_game(e), sent_meta: false, ..r },
            Seq::empty(),
        ),
        Some(SLPEventType::PreFrame) => if e.len() >= 6 {
            (
                ReaderState {
                    inputs: r.inputs.insert(
                        input_key(be_i32(e[1], e[2], e[3], e[4]), e[5] as int),
                        e.subrange(0x19, 0x3c),
                    ),
                    ..r
                },
                Seq::empty(),
            )
        } else {
            (r, Seq::empty())
        },
        Some(SLPEventType::PostFrame) => after_post_frame(r, e),
        Some(SLPEventType::GameEnd) => (ReaderState { inputs: Map::empty(), ..r }, Seq::empty()),
        Some(SLPEventType::FrameBookend) => {
            let frame = be_i32(e[1], e[2], e[3], e[4]);
            let data = frame_data(r.inputs, frame);
            if e.len() >= 9 && data.len() > 0 {
                (
                    r,
                    seq![
                        Signal::Frame {
                            frame,
                            last_finalized_frame: be_i32(e[5], e[6], e[7], e[8]),
                            data,
                        },
                    ],
                )
            } else {
                (r, Seq::empty())
            }
        },
        _ => (r, Seq::empty()),
    }
}

/// What a stream of events does to the reader, and what the reader passes on.
pub open spec fn stream_applied(r: ReaderState, s: Seq<u8>) -> (ReaderState, Seq<Signal>)
    decreases s.len(),
{
    match next_event(r.sizes, s) {
        Some(n) => if 0 < n <= s.len() {
            let (next, out) = event_applied(r, s.take(n));
            let (last, rest) = stream_applied(next, s.skip(n));
            (last, out + rest)
        } else {
            (r, Seq::empty())
        },
        None => (r, Seq::empty()),
    }
}

/// Whether an event is one that the reader can take: a pre-frame event that names
/// a player must be long enough to hold inputs.
pub open spec fn event_readable(e: Seq<u8>) -> bool {
    event_type_of(e[0]) == Some(SLPEventType::PreFrame) && e.len() >= 6 ==> e.len() >= 0x3c
}

/// Whether all events of a stream are ones that the reader can take.
pub open spec fn stream_readable(sizes: Seq<u32>, s: Seq<u8>) -> bool
    decreases s.len(),
{
    match next_event(sizes, s) {
        Some(n) => if 0 < n <= s.len() {
            &&& event_readable(s.take(n))
            &&& stream_readable(
                if s[0] == 0x35 {
                    sizes_with(sizes, s.take(n), size_entries(s.take(n)))
                } else {
                    sizes
                },
                s.skip(n),
            )
        } else {
            true
        },
        None => true,
    }
}

/// Reads the game that runs in Dolphin.
pub struct SLPreader {
    ip: String,
    port: u16,
    client_token: u32,
    meta: GameMeta,
    sent_meta: bool,
    event_sizes: Vec<u32>,
    frame_inputs: HashMap<i64, Vec<u8>>,
}

impl SLPreader {
    /// Address of Dolphin.
    pub closed spec fn spec_ip(self) -> Seq<char> {
        self.ip@
    }

    /// Port of Dolphin.
    pub closed spec fn spec_port(self) -> u16 {
        self.port
    }

    /// The number by which Slippi knows the reader.
    pub closed spec fn spec_client_token(self) -> u32 {
        self.client_token
    }

    /// Whether address, port and token are those of another reader.
    pub open spec fn same_identity(self, other: SLPreader) -> bool {
        &&& self.spec_ip() == other.spec_ip()
        &&& self.spec_port() == other.spec_port()
        &&& self.spec_client_token() == other.spec_client_token()
    }

    /// The reader's tables are complete.
    pub closed spec fn wf(self) -> bool {
        self.event_sizes@.len() == 256
    }
}

impl View for SLPreader {
    type V = ReaderState;

    closed spec fn view(&self) -> ReaderState {
        ReaderState {
            meta: self.meta@,
            sent_meta: self.sent_meta,
            sizes: self.event_sizes@,
            inputs: self.frame_inputs@.map_values(|v: Vec<u8>| v@),
        }
    }
}

/// A table of 256 unknown event sizes.
fn unknown_sizes() -> (sizes: Vec<u32>)
    ensures
        sizes@ == Seq::new(256, |i: int| 0u32),
{
    let mut sizes: Vec<u32> = Vec::new();
    while sizes.len() < 256
        invariant
            sizes@.len() <= 256,
            forall|i: int| 0 <= i < sizes@.len() ==> sizes@[i] == 0,
        decreases 256 - sizes@.len(),
    {
        sizes.push(0);
    }
    assert(sizes@ =~= Seq::new(256, |i: int| 0u32));
    sizes
}

/// The signed 32-bit number that four bytes stand for, most significant first.
fn i32_from_be(a: u8, b: u8, c: u8, d: u8) -> (n: i64)
    ensures
        n == be_i32(a, b, c, d),
        -0x8000_0000 <= n < 0x8000_0000,
{
    let n: u32 = text::u32_from_be(a, b, c, d);
    if n < 0x8000_0000 {
        n as i64
    } else {
        n as i64 - 0x1_0000_0000
    }
}

/// Length of the event at the front of a stream, if there is one.
fn next_event_len(sizes: &Vec<u32>, bytes: &[u8], at: usize) -> (n: Option<usize>)
    requires
        sizes@.len() == 256,
        at <= bytes@.len(),
    ensures
        match n {
            Some(n) => next_event(sizes@, bytes@.skip(at as int)) == Some(n as int) && 0 < n && at
                + n <= bytes@.len(),
            None => next_event(sizes@, bytes@.skip(at as int)) is None,
        },
{
    let left: usize = bytes.len() - at;
    let ghost s = bytes@.skip(at as int);
    if left == 0 || bytes[at] == 0 {
        return None;
    }
    assert(s[0] == bytes@[at as int]);
    if bytes[at] == 0x35 {
        if left < 2 {
            return None;
        }
        assert(s[1] == bytes@[at + 1]);
        if bytes[at + 1] as usize >= left {
            return None;
        }
        return Some(bytes[at + 1] as usize + 1);
    }
    let n: u32 = sizes[bytes[at] as usize];
    if n == 0 || n as usize > left {
        None
    } else {
        Some(n as usize)
    }
}

/// Enters the entries of a payload-sizes event into the table.
fn read_sizes(sizes: &mut Vec<u32>, e: &[u8])
    requires
        old(sizes)@.len() == 256,
    ensures
        final(sizes)@ == sizes_with(old(sizes)@, e@, size_entries(e@)),
        final(sizes)@.len() == 256,
{
    let len: usize = e.len();
    let entries: usize = if len < 2 {
        0
    } else {
        (len - 2) / 3
    };
    let mut k: usize = 0;
    while k < entries
        invariant
            k <= entries,
            entries == size_entries(e@),
            len == e@.len(),
            sizes@ == sizes_with(old(sizes)@, e@, k as int),
            sizes@.len() == 256,
        decreases entries - k,
    {
        let at: usize = 3 * k + 2;
        assert(at + 2 < e@.len());
        sizes.set(e[at] as usize, e[at + 1] as u32 * 256 + e[at + 2] as u32 + 1);
        k += 1;
    }
}

/// The byte at an offset, or zero behind the end.
fn get_or_zero(e: &[u8], i: usize) -> (b: u8)
    ensures
        b == byte_or_zero(e@, i as int),
{
    if i < e.len() {
        e[i]
    } else {
        0
    }
}

/// Reads a game-start event.
fn read_game_start(e: &[u8]) -> (meta: GameMeta)
    ensures
        meta@ == started_game(e@),
{
    let mut meta = GameMeta::new();
    if e.len() > 0x80 {
        meta.slp_version = [e[1], e[2], e[3]];
        meta.is_teams = e[0x0d] != 0 || e[0x0e] != 0;
        meta.stage = e[0x14];
        if e.len() > 0x140 {
            meta.seed = text::u32_from_be(e[0x13d], e[0x13e], e[0x13f], e[0x140]);
        }
        let mut i: u8 = 0;
        while i < 4
            invariant
                i <= 4,
                e@.len() > 0x80,
                meta.slp_version@ == seq![e@[1], e@[2], e@[3]],
                meta.is_teams == (e@[0x0d] != 0 || e@[0x0e] != 0),
                meta.stage == e@[0x14],
                meta.seed == started_game(e@).seed,
                meta.players@.len() == i,
                forall|j: int| 0 <= j < i ==> meta.players@[j] == started_player(e@, j),
            decreases 4 - i,
        {
            let off: usize = 0x24 * (i as usize);
            meta.players.push(
                PlayerMeta::new(
                    i + 1,
                    u8::MAX,
                    get_or_zero(e, 0x68 + off),
                    get_or_zero(e, 0x6e + off),
                    0x66 + off < e.len() && e[0x66 + off] != 1,
                ),
            );
            i += 1;
        }
        assert(meta@ =~= started_game(e@));
    }
    meta
}

/// Index of the first player at a port; the number of players if there is none.
fn find_player(players: &Vec<PlayerMeta>, port: u16) -> (i: usize)
    ensures
        i == player_at(players@, port as int),
        i <= players@.len(),
{
    let mut i: usize = 0;
    assert(players@.skip(0) =~= players@);
    while i < players.len()
        invariant
            i <= players@.len(),
            player_at(players@, port as int) == i + player_at(players@.skip(i as int), port as int),
        decreases players@.len() - i,
    {
        assert(players@.skip(i as int)[0] == players@[i as int]);
        if players[i].port as u16 == port {
            return i;
        }
        assert(players@.skip(i as int).skip(1) =~= players@.skip(i + 1));
        i += 1;
    }
    i
}

/// Those players whose character is known.
fn known_players(players: &Vec<PlayerMeta>) -> (known: Vec<PlayerMeta>)
    ensures
        known@ == players@.filter(|p: PlayerMeta| p.char != 255),
{
    let ghost pred = |p: PlayerMeta| p.char != 255;
    let mut known: Vec<PlayerMeta> = Vec::new();
    let mut i: usize = 0;
    proof {
        reveal(Seq::filter);
        assert(players@.take(0) =~= Seq::empty());
        assert(known@ =~= players@.take(0).filter(pred));
    }
    while i < players.len()
        invariant
            i <= players@.len(),
            pred == (|p: PlayerMeta| p.char != 255),
            known@ == players@.take(i as int).filter(pred),
        decreases players@.len() - i,
    {
        proof {
            reveal(Seq::filter);
            assert(players@.take(i + 1).drop_last() =~= players@.take(i as int));
            assert(players@.take(i + 1).last() == players@[i as int]);
        }
        if players[i].char != 255 {
            known.push(players[i]);
        }
        i += 1;
    }
    assert(players@.take(i as int) =~= players@);
    known
}

/// Why a message of Slippi cannot be read.
#[derive(Debug, Clone, Copy, PartialEq, Eq, Structural)]
pub enum ReaderError {
    /// A pre-frame event is too short to hold a player's inputs.
    ShortPreFrame,
}

impl SLPreader {
    /// A reader for the Dolphin at the given address, known to it by a random number.
    pub fn new(ip: &str, port: u16, client_token: u32) -> (reader: SLPreader)
        ensures
            reader.wf(),
            reader.spec_ip() == ip@,
            reader.spec_port() == port,
            reader.spec_client_token() == client_token,
            reader@ == fresh_state(),
    {
        let reader = SLPreader {
            ip: ip.to_owned(),
            port,
            client_token,
            meta: GameMeta::new(),
            sent_meta: false,
            event_sizes: unknown_sizes(),
            frame_inputs: HashMap::new(),
        };
        assert(reader@ =~= fresh_state()) by {
            assert(Map::<i64, Vec<u8>>::empty().map_values(|v: Vec<u8>| v@) =~= Map::empty());
        }
        reader
    }

    /// Address of Dolphin.
    pub fn ip(&self) -> (ip: String)
        ensures
            ip@ == self.spec_ip(),
    {
        self.ip.clone()
    }

    /// Port of Dolphin.
    pub fn port(&self) -> (port: u16)
        ensures
            port == self.spec_port(),
    {
        self.port
    }

    /// Forgets everything about the game, as a new connection starts.
    pub fn reconnect(&mut self)
        ensures
            final(self).wf(),
            final(self)@ == fresh_state(),
            final(self).same_identity(*old(self)),
    {
        self.meta = GameMeta::new();
        self.sent_meta = false;
        self.event_sizes = unknown_sizes();
        self.frame_inputs = HashMap::new();
        assert(self@ =~= fresh_state()) by {
            assert(Map::<i64, Vec<u8>>::empty().map_values(|v: Vec<u8>| v@) =~= Map::empty());
        }
    }

    fn apply_pre_frame(&mut self, e: &[u8])
        requires
            old(self).wf(),
            e@.len() >= 0x3c,
            event_type_of(e@[0]) == Some(SLPEventType::PreFrame),
        ensures
            final(self).wf(),
            final(self).same_identity(*old(self)),
            final(self)@ == event_applied(old(self)@, e@).0,
    {
        let frame: i64 = i32_from_be(e[1], e[2], e[3], e[4]);
        let mut input_bytes: Vec<u8> = Vec::new();
        input_bytes.extend_from_slice(slice_subrange(e, 0x19, 0x3c));
        assert(input_bytes@ =~= e@.subrange(0x19, 0x3c));
        self.frame_inputs.insert(frame * 256 + e[5] as i64, input_bytes);
        assert(self@.inputs =~= old(self)@.inputs.insert(
            input_key(frame, e@[5] as int),
            input_bytes@,
        ));
    }

    fn apply_post_frame(&mut self, e: &[u8], out: &mut Vec<ReaderOutput>)
        requires
            old(self).wf(),
        ensures
            final(self).wf(),
            final(self).same_identity(*old(self)),
            final(self)@ == after_post_frame(old(self)@, e@).0,
            signals(final(out)@) == signals(old(out)@) + after_post_frame(old(self)@, e@).1,
    {
        if self.sent_meta || e.len() < 8 {
            assert(signals(out@) =~= signals(out@) + Seq::empty());
            return;
        }
        let p: usize = find_player(&self.meta.players, e[5] as u16 + 1);
        if p >= self.meta.players.len() {
            assert(signals(out@) =~= signals(out@) + Seq::empty());
            return;
        }
        if self.meta.players[p].char != 255 {
            self.meta.players = known_players(&self.meta.players);
            self.sent_meta = true;
            let ghost meta = with_known_players(old(self)@.meta);
            assert(self.meta@ =~= meta);
            out.push(ReaderOutput::Crypter(CrypterInput::Reset(self.meta.clone())));
            out.push(ReaderOutput::Event(DolphinEvent::NewGame(self.meta.clone())));
            assert(signals(out@) =~= signals(old(out)@) + seq![
                Signal::Reset(meta),
                Signal::NewGame(meta),
            ]);
        } else {
            let mut player = self.meta.players[p];
            player.char = e[7];
            self.meta.players.set(p, player);
            assert(signals(out@) =~= signals(out@) + Seq::empty());
        }
    }

    /// Appends a player's inputs in a frame, if there are any.
    fn push_inputs(&self, data: &mut Vec<u8>, frame: i64, player: i64)
        requires
            -0x8000_0000 <= frame < 0x8000_0000,
            0 <= player < 256,
        ensures
            final(data)@ == old(data)@ + inputs_of(self@.inputs, frame, player as int),
    {
        let key: i64 = frame * 256 + player;
        match self.frame_inputs.get(&key) {
            Some(input) => {
                data.extend_from_slice(input.as_slice());
                assert(data@ =~= old(data)@ + input@);
            },
            None => {
                assert(data@ =~= old(data)@ + Seq::empty());
            },
        }
    }

    fn apply_bookend(&self, e: &[u8], out: &mut Vec<ReaderOutput>)
        requires
            self.wf(),
            e@.len() > 0,
            event_type_of(e@[0]) == Some(SLPEventType::FrameBookend),
        ensures
            event_applied(self@, e@).0 == self@,
            signals(final(out)@) == signals(old(out)@) + event_applied(self@, e@).1,
    {
        if e.len() >= 9 {
            let frame: i64 = i32_from_be(e[1], e[2], e[3], e[4]);
            let last: i64 = i32_from_be(e[5], e[6], e[7], e[8]);
            let mut data: Vec<u8> = Vec::new();
            self.push_inputs(&mut data, frame, 1);
            self.push_inputs(&mut data, frame, 2);
            self.push_inputs(&mut data, frame, 3);
            assert(data@ =~= frame_data(self@.inputs, frame));
            if data.len() > 0 {
                out.push(ReaderOutput::Crypter(CrypterInput::Frame(InputFrame::new(frame, last, data))));
                assert(signals(out@) =~= signals(old(out)@) + event_applied(self@, e@).1);
                return;
            }
        }
        assert(signals(out@) =~= signals(out@) + Seq::empty());
    }

    fn apply_event(&mut self, e: &[u8], out: &mut Vec<ReaderOutput>)
        requires
            old(self).wf(),
            e@.len() > 0,
            event_readable(e@),
        ensures
            final(self).wf(),
            final(self).same_identity(*old(self)),
            final(self)@ == event_applied(old(self)@, e@).0,
            signals(final(out)@) == signals(old(out)@) + event_applied(old(self)@, e@).1,
    {
        assert(signals(out@) =~= signals(out@) + Seq::empty());
        match SLPEventType::from_byte(e[0]) {
            Some(SLPEventType::Payloads) => {
                read_sizes(&mut self.event_sizes, e);
            },
            Some(SLPEventType::GameStart) => {
                self.meta = read_game_start(e);
                self.sent_meta = false;
            },
            Some(SLPEventType::PreFrame) => {
                if e.len() >= 6 {
                    self.apply_pre_frame(e);
                }
            },
            Some(SLPEventType::PostFrame) => {
                self.apply_post_frame(e, out);
            },
            Some(SLPEventType::GameEnd) => {
                self.frame_inputs = HashMap::new();
                assert(self@.inputs =~= Map::empty());
            },
            Some(SLPEventType::FrameBookend) => {
                self.apply_bookend(e, out);
            },
            _ => {},
        }
    }

    /// Handles a stream of events of the running game.
    pub fn handle_payload(&mut self, bytes: &[u8]) -> (out: Vec<ReaderOutput>)
        requires
            old(self).wf(),
            stream_readable(old(self)@.sizes, bytes@),
        ensures
            final(self).wf(),
            final(self).same_identity(*old(self)),
            (final(self)@, signals(out@)) == stream_applied(old(self)@, bytes@),
    {
        let mut out: Vec<ReaderOutput> = Vec::new();
        let len: usize = bytes.len();
        let mut at: usize = 0;
        let ghost goal = stream_applied(self@, bytes@);
        proof {
            assert(bytes@.skip(0) =~= bytes@);
            assert(signals(out@) =~= Seq::empty());
            assert(Seq::empty() + goal.1 =~= goal.1);
        }
        loop
            invariant
                self.wf(),
                self.same_identity(*old(self)),
                at <= len == bytes@.len(),
                stream_readable(self@.sizes, bytes@.skip(at as int)),
                goal == stream_applied(old(self)@, bytes@),
                goal.0 == stream_applied(self@, bytes@.skip(at as int)).0,
                goal.1 == signals(out@) + stream_applied(self@, bytes@.skip(at as int)).1,
            decreases bytes@.len() - at,
        {
            let ghost s = bytes@.skip(at as int);
            let ghost before = signals(out@);
            match next_event_len(&self.event_sizes, bytes, at) {
                Some(n) => {
                    let e = slice_subrange(bytes, at, at + n);
                    assert(e@ =~= s.take(n as int));
                    assert(bytes@.skip(at + n) =~= s.skip(n as int));
                    let ghost step = event_applied(self@, e@);
                    let ghost rest = stream_applied(step.0, s.skip(n as int));
                    self.apply_event(e, &mut out);
                    assert(before + (step.1 + rest.1) =~= (before + step.1) + rest.1);
                    at += n;
                },
                None => {
                    assert(signals(out@) + Seq::empty() =~= signals(out@));
                    return out;
                },
            }
        }
    }

    /// Tells whether all events of a stream are ones that the reader can take.
    pub fn payload_readable(&self, bytes: &[u8]) -> (readable: bool)
        requires
            self.wf(),
        ensures
            readable == stream_readable(self@.sizes, bytes@),
    {
        let mut sizes: Vec<u32> = Vec::new();
        sizes.extend_from_slice(self.event_sizes.as_slice());
        assert(sizes@ =~= self.event_sizes@);
        let len: usize = bytes.len();
        let mut at: usize = 0;
        assert(bytes@.skip(0) =~= bytes@);
        loop
            invariant
                sizes@.len() == 256,
                at <= len == bytes@.len(),
                stream_readable(self@.sizes, bytes@) == stream_readable(
                    sizes@,
                    bytes@.skip(at as int),
                ),
            decreases bytes@.len() - at,
        {
            let ghost s = bytes@.skip(at as int);
            match next_event_len(&sizes, bytes, at) {
                Some(n) => {
                    let e = slice_subrange(bytes, at, at + n);
                    assert(e@ =~= s.take(n as int));
                    assert(bytes@.skip(at + n) =~= s.skip(n as int));
                    assert(e@[0] == s[0]);
                    if e[0] == 0x37 && e.len() >= 6 && e.len() < 0x3c {
                        return false;
                    }
                    if e[0] == 0x35 {
                        read_sizes(&mut sizes, e);
                    }
                    at += n;
                },
                None => {
                    return true;
                },
            }
        }
    }
}

// ---------------------------------------------------------------------------
// Messages
// ---------------------------------------------------------------------------
/// The request with which a reader introduces itself to Slippi.
pub const CONNECT_REQUEST: &'static str = "{\"type\":\"connect_request\",\"cursor\":0}";

/// What the reader knows after a message that announces a game.
pub open spec fn game_forgotten(r: ReaderState) -> ReaderState {
    ReaderState { meta: unknown_game(), sent_meta: false, inputs: Map::empty(), ..r }
}

/// What a message of Slippi does to the reader, and what the reader passes on,
/// given the kind of the message and its decoded payload. `None` where the
/// payload holds an event that the reader cannot take.
pub open spec fn message_applied(r: ReaderState, kind: Seq<char>, payload: Option<Seq<u8>>) -> Option<
    (ReaderState, Seq<Signal>),
> {
    if kind == "START_GAME"@ || kind == "start_game"@ {
        Some((game_forgotten(r), Seq::empty()))
    } else if kind == "END_GAME"@ || kind == "end_game"@ {
        Some((r, seq![Signal::GameEnd]))
    } else if kind == "GAME_EVENT"@ || kind == "game_event"@ {
        match payload {
            Some(bytes) => if stream_readable(r.sizes, bytes) {
                Some(stream_applied(r, bytes))
            } else {
                None
            },
            None => Some((r, Seq::empty())),
        }
    } else {
        Some((r, Seq::empty()))
    }
}

/// A cursor as bytes, most significant first, without leading zeros but never
/// empty.
pub open spec fn cursor_bytes(n: nat) -> Seq<u8>
    decreases n,
{
    if n < 256 {
        seq![n as u8]
    } else {
        cursor_bytes(n / 256).push((n % 256) as u8)
    }
}

/// A cursor as bytes, most significant first, without leading zeros but never
/// empty.
pub fn encode_cursor(n: u64) -> (bytes: Vec<u8>)
    ensures
        bytes@ == cursor_bytes(n as nat),
        1 <= bytes@.len() <= 8,
{
    proof {
        reveal_with_fuel(cursor_bytes, 9);
    }
    push_cursor(n)
}

fn push_cursor(n: u64) -> (bytes: Vec<u8>)
    ensures
        bytes@ == cursor_bytes(n as nat),
    decreases n,
{
    if n < 256 {
        let mut bytes: Vec<u8> = Vec::new();
        bytes.push(n as u8);
        assert(bytes@ =~= cursor_bytes(n as nat));
        bytes
    } else {
        let mut bytes = push_cursor(n / 256);
        bytes.push((n % 256) as u8);
        bytes
    }
}

/// The message that acknowledges a cursor: its length in four bytes, most
/// significant first, then the message itself in UBJSON.
pub open spec fn acknowledgement(cursor: Seq<u8>, client_token: u32, is_realtime: bool) -> Seq<u8> {
    let body = encoding::ubjson_handshake_of(
        1,
        cursor,
        text::u32_be(client_token),
        is_realtime,
    );
    text::u32_be(body.len() as u32) + body
}

/// The message that acknowledges a cursor.
pub fn encode_ubjson_handshake(cursor_be: &Vec<u8>, client_token: u32, is_realtime: bool) -> (message:
    Vec<u8>)
    requires
        cursor_be@.len() < 256,
    ensures
        message@ == acknowledgement(cursor_be@, client_token, is_realtime),
{
    let mut token: Vec<u8> = Vec::new();
    token.extend_from_slice(&text::u32_to_be(client_token));
    assert(token@ =~= text::u32_be(client_token));
    let mut body = encoding::ubjson_handshake(1, cursor_be, &token, is_realtime);
    let len: u32 = body.len() as u32;
    let mut message: Vec<u8> = Vec::new();
    message.extend_from_slice(&text::u32_to_be(len));
    message.append(&mut body);
    assert(message@ =~= acknowledgement(cursor_be@, client_token, is_realtime));
    message
}

/// What the reader does on a message of Slippi.
#[derive(Debug)]
pub struct MessageOutcome {
    /// What is passed on.
    pub outputs: Vec<ReaderOutput>,
    /// The acknowledgement to send, if the message asks for one.
    pub reply: Option<Vec<u8>>,
}

/// The acknowledgement that a message asks for.
pub open spec fn reply_of(next_cursor: Option<u64>, client_token: u32) -> Option<Seq<u8>> {
    match next_cursor {
        Some(n) => Some(acknowledgement(cursor_bytes(n as nat), client_token, false)),
        None => None,
    }
}

/// Whether a message's kind is one of two spellings.
fn is_kind(kind: &String, upper: &str, lower: &str) -> (is: bool)
    ensures
        is == (kind@ == upper@ || kind@ == lower@),
{
    *kind == upper.to_owned() || *kind == lower.to_owned()
}

/// What a packet from Slippi does: the reader afterwards, what is passed on, and
/// the acknowledgement. A packet that is not JSON does nothing. `None`
/// where the payload holds an event that the reader cannot take.
pub open spec fn packet_applied(r: ReaderState, client_token: u32, data: Seq<u8>) -> Option<
    (ReaderState, Seq<Signal>, Option<Seq<u8>>),
> {
    match encoding::json_fields_of(data, "type"@, "payload"@, "next_cursor"@) {
        Some((kind, payload, next_cursor)) if data.len() > 0 => {
            let kind = match kind {
                Some(kind) => kind,
                None => Seq::empty(),
            };
            let payload = match payload {
                Some(encoded) => encoding::base64_std_bytes(encoded),
                None => None,
            };
            match message_applied(r, kind, payload) {
                Some((next, out)) => Some((next, out, reply_of(next_cursor, client_token))),
                None => None,
            }
        },
        _ => Some((r, Seq::empty(), None)),
    }
}

impl SLPreader {
    /// Forgets the game, as a new one is announced.
    fn forget_game(&mut self)
        requires
            old(self).wf(),
        ensures
            final(self).wf(),
            final(self).same_identity(*old(self)),
            final(self)@ == game_forgotten(old(self)@),
    {
        self.frame_inputs = HashMap::new();
        self.meta = GameMeta::new();
        self.sent_meta = false;
        assert(self@.inputs =~= Map::empty());
    }

    /// Handles a message of Slippi, given its kind, its decoded payload and the
    /// cursor that it asks to acknowledge. On an error the reader is unchanged.
    pub fn handle_message(
        &mut self,
        kind: &String,
        payload: &Option<Vec<u8>>,
        next_cursor: Option<u64>,
    ) -> (outcome: Result<MessageOutcome, ReaderError>)
        requires
            old(self).wf(),
        ensures
            final(self).wf(),
            final(self).same_identity(*old(self)),
            match outcome {
                Ok(o) => {
                    &&& message_applied(old(self)@, kind@, crypto::bytes_of(*payload)) == Some(
                        (final(self)@, signals(o.outputs@)),
                    )
                    &&& crypto::bytes_of(o.reply) == reply_of(
                        next_cursor,
                        old(self).spec_client_token(),
                    )
                },
                Err(ReaderError::ShortPreFrame) => {
                    &&& message_applied(old(self)@, kind@, crypto::bytes_of(*payload)) is None
                    &&& *final(self) == *old(self)
                },
            },
    {
        let mut outputs: Vec<ReaderOutput> = Vec::new();
        assert(signals(outputs@) =~= Seq::empty());
        if is_kind(kind, "START_GAME", "start_game") {
            self.forget_game();
        } else if is_kind(kind, "END_GAME", "end_game") {
            outputs.push(ReaderOutput::Event(DolphinEvent::GameEnd));
            assert(signals(outputs@) =~= seq![Signal::GameEnd]);
        } else if is_kind(kind, "GAME_EVENT", "game_event") {
            match payload {
                Some(bytes) => {
                    if !self.payload_readable(bytes.as_slice()) {
                        return Err(ReaderError::ShortPreFrame);
                    }
                    outputs = self.handle_payload(bytes.as_slice());
                },
                None => {},
            }
        }
        let reply = match next_cursor {
            Some(n) => Some(encode_ubjson_handshake(&encode_cursor(n), self.client_token, false)),
            None => None,
        };
        Ok(MessageOutcome { outputs, reply })
    }

    /// Handles a packet that Slippi sent. On an error the reader is unchanged.
    pub fn handle_packet(&mut self, data: &[u8]) -> (outcome: Result<MessageOutcome, ReaderError>)
        requires
            old(self).wf(),
        ensures
            final(self).wf(),
            final(self).same_identity(*old(self)),
            match outcome {
                Ok(o) => packet_applied(old(self)@, old(self).spec_client_token(), data@) == Some(
                    (final(self)@, signals(o.outputs@), crypto::bytes_of(o.reply)),
                ),
                Err(ReaderError::ShortPreFrame) => {
                    &&& packet_applied(old(self)@, old(self).spec_client_token(), data@) is None
                    &&& *final(self) == *old(self)
                },
            },
    {
        if data.len() > 0 {
            match encoding::json_fields(data, "type", "payload", "next_cursor") {
                Some((kind, payload, next_cursor)) => {
                    let kind = match kind {
                        Some(kind) => kind,
                        None => String::new(),
                    };
                    let payload = match payload {
                        Some(encoded) => encoding::base64_std_decode(encoded.as_str()),
                        None => None,
                    };
                    return self.handle_message(&kind, &payload, next_cursor);
                },
                None => {},
            }
        }
        let outputs: Vec<ReaderOutput> = Vec::new();
        assert(signals(outputs@) =~= Seq::empty());
        Ok(MessageOutcome { outputs, reply: None })
    }
}

// ---------------------------------------------------------------------------
// Laws
// ---------------------------------------------------------------------------
/// An event reports a game only if that was not done before since the game
/// started, and only the start of another game makes a further report possible.
pub proof fn law_game_reported_once(r: ReaderState, e: Seq<u8>)
    ensures
        event_applied(r, e).1.len() > 0 && !(event_applied(r, e).1[0] is Frame) ==> !r.sent_meta
            && event_applied(r, e).0.sent_meta,
        r.sent_meta && event_type_of(e[0]) != Some(SLPEventType::GameStart) ==> event_applied(
            r,
            e,
        ).0.sent_meta,
{
}

/// How many reports of a game some outputs hold.
pub open spec fn reports(out: Seq<Signal>) -> nat
    decreases out.len(),
{
    if out.len() == 0 {
        0
    } else {
        reports(out.drop_last()) + (if out.last() is NewGame {
            1nat
        } else {
            0nat
        })
    }
}

/// How many games a stream of events starts.
pub open spec fn game_starts(r: ReaderState, s: Seq<u8>) -> nat
    decreases s.len(),
{
    match next_event(r.sizes, s) {
        Some(n) => if 0 < n <= s.len() {
            game_starts(event_applied(r, s.take(n)).0, s.skip(n)) + (if event_type_of(s[0]) == Some(
                SLPEventType::GameStart,
            ) {
                1nat
            } else {
                0nat
            })
        } else {
            0
        },
        None => 0,
    }
}

proof fn lemma_reports_split(a: Seq<Signal>, b: Seq<Signal>)
    ensures
        reports(a + b) == reports(a) + reports(b),
    decreases b.len(),
{
    if b.len() == 0 {
        assert(a + b =~= a);
    } else {
        lemma_reports_split(a, b.drop_last());
        assert((a + b).drop_last() =~= a + b.drop_last());
    }
}

/// A stream of events reports a game at most once between two starts: where it starts
/// no game, it reports one at most once, and never if that was done before; and in all
/// it reports no more games than it starts, but for one that had started before.
pub proof fn law_stream_reports_once(r: ReaderState, s: Seq<u8>)
    ensures
        game_starts(r, s) == 0 ==> {
            &&& reports(stream_applied(r, s).1) <= 1
            &&& r.sent_meta ==> reports(stream_applied(r, s).1) == 0
            &&& stream_applied(r, s).0.sent_meta <==> r.sent_meta || reports(
                stream_applied(r, s).1,
            ) == 1
        },
        reports(stream_applied(r, s).1) <= game_starts(r, s) + (if r.sent_meta {
            0nat
        } else {
            1nat
        }),
    decreases s.len(),
{
    match next_event(r.sizes, s) {
        Some(n) => {
            if 0 < n <= s.len() {
                let e = s.take(n);
                let (next, out) = event_applied(r, e);
                law_stream_reports_once(next, s.skip(n));
                lemma_reports_split(out, stream_applied(next, s.skip(n)).1);
                reveal_with_fuel(reports, 3);
                if out.len() == 2 {
                    assert(out.drop_last() =~= seq![out[0]]);
                    assert(out.drop_last().drop_last() =~= Seq::empty());
                }
            }
        },
        None => {},
    }
}

/// Whether every report of a game directly follows the crypter's reset for it.
pub open spec fn resets_lead(out: Seq<Signal>) -> bool {
    forall|i: int|
        0 <= i < out.len() && (#[trigger] out[i]) is NewGame ==> i > 0 && out[i - 1]
            == Signal::Reset(out[i]->NewGame_0)
}

/// The crypter learns of a game before the session does: in all that a stream of
/// events makes the reader pass on, each report of a game directly follows a reset
/// with the same game.
pub proof fn law_reset_before_new_game(r: ReaderState, s: Seq<u8>)
    ensures
        resets_lead(stream_applied(r, s).1),
    decreases s.len(),
{
    match next_event(r.sizes, s) {
        Some(n) => {
            if 0 < n <= s.len() {
                let (next, out) = event_applied(r, s.take(n));
                law_reset_before_new_game(next, s.skip(n));
                let rest = stream_applied(next, s.skip(n)).1;
                assert(resets_lead(out));
                assert forall|i: int|
                    0 <= i < (out + rest).len() && (#[trigger] (out + rest)[i]) is NewGame implies i
                    > 0 && (out + rest)[i - 1] == Signal::Reset((out + rest)[i]->NewGame_0) by {
                    if i < out.len() {
                        assert(out[i] is NewGame);
                    } else {
                        assert(rest[i - out.len()] is NewGame);
                    }
                }
            }
        },
        None => {},
    }
}

/// Players that a reported game lists all have a known character.
pub proof fn law_reported_players_known(r: ReaderState, e: Seq<u8>, i: int)
    requires
        !r.sent_meta,
        event_applied(r, e).0.sent_meta,
        0 <= i < event_applied(r, e).0.meta.players.len(),
    ensures
        event_applied(r, e).0.meta.players[i].char != 255,
{
    let pred = |p: PlayerMeta| p.char != 255;
    r.meta.players.lemma_filter_pred(pred, i);
}

/// The four bytes of a signed 32-bit number, most significant first.
pub open spec fn i32_bytes(n: int) -> Seq<u8> {
    let u = if n < 0 {
        n + 0x1_0000_0000
    } else {
        n
    };
    seq![
        (u / 0x100_0000) as u8,
        (u / 0x1_0000 % 0x100) as u8,
        (u / 0x100 % 0x100) as u8,
        (u % 0x100) as u8,
    ]
}

/// A frame number is the signed number that its four bytes stand for, most significant
/// first, and every such number is read back from its bytes.
pub proof fn law_frame_number(a: u8, b: u8, c: u8, d: u8, n: int)
    requires
        -0x8000_0000 <= n < 0x8000_0000,
    ensures
        be_i32(a, b, c, d) == 16_777_216 * a + 65_536 * b + 256 * c + d - (if a >= 128 {
            4_294_967_296int
        } else {
            0int
        }),
        be_i32(i32_bytes(n)[0], i32_bytes(n)[1], i32_bytes(n)[2], i32_bytes(n)[3]) == n,
{
    let u = if n < 0 {
        n + 0x1_0000_0000
    } else {
        n
    };
    assert(u == 0x100_0000 * (u / 0x100_0000) + 0x1_0000 * (u / 0x1_0000 % 0x100) + 0x100 * (u
        / 0x100 % 0x100) + u % 0x100);
}

/// Whether an event has a command byte and is of a frame.
pub open spec fn is_frame_event(e: Seq<u8>, command: u8, frame: int) -> bool {
    &&& e.len() >= 5
    &&& e[0] == command
    &&& e.subrange(1, 5) == i32_bytes(frame)
}

proof fn lemma_frame_event(e: Seq<u8>, command: u8, frame: int)
    requires
        is_frame_event(e, command, frame),
        -0x8000_0000 <= frame < 0x8000_0000,
    ensures
        be_i32(e[1], e[2], e[3], e[4]) == frame,
{
    let n = e.subrange(1, 5);
    assert(n[0] == e[1] && n[1] == e[2] && n[2] == e[3] && n[3] == e[4]);
    law_frame_number(e[1], e[2], e[3], e[4], frame);
}

/// A pre-frame event gives the inputs of one player in one frame: the 35 bytes behind the
/// first 25. They replace earlier ones, and those of other players and other frames stay.
pub proof fn law_inputs_are_kept(
    r: ReaderState,
    e: Seq<u8>,
    frame: int,
    other_frame: int,
    other_player: int,
)
    requires
        is_frame_event(e, 0x37, frame),
        e.len() >= 60,
        -0x8000_0000 <= frame < 0x8000_0000,
        -0x8000_0000 <= other_frame < 0x8000_0000,
        0 <= other_player < 256,
    ensures
        event_applied(r, e).1.len() == 0,
        inputs_of(event_applied(r, e).0.inputs, other_frame as i64, other_player) == (
        if other_frame == frame && other_player == e[5] {
            Seq::new(35, |i: int| e[25 + i])
        } else {
            inputs_of(r.inputs, other_frame as i64, other_player)
        }),
        event_applied(r, e).0.meta == r.meta,
        event_applied(r, e).0.sent_meta == r.sent_meta,
        event_applied(r, e).0.sizes == r.sizes,
{
    lemma_frame_event(e, 0x37, frame);
    let p = e[5] as int;
    assert(frame * 256 + p == other_frame * 256 + other_player ==> frame == other_frame && p
        == other_player);
    if other_frame == frame && other_player == p {
        assert(e.subrange(0x19, 0x3c) =~= Seq::new(35, |i: int| e[25 + i]));
    }
}

/// The end of a frame reports the frame with its own number, the last final one, and the
/// inputs of the players at index one, two and three, one behind another; nothing is
/// reported where they gave none. The reader stays as it is.
pub proof fn law_frame_is_reported(r: ReaderState, e: Seq<u8>, frame: int, finalized: int)
    requires
        is_frame_event(e, 0x3c, frame),
        e.len() >= 9,
        e.subrange(5, 9) == i32_bytes(finalized),
        -0x8000_0000 <= frame < 0x8000_0000,
        -0x8000_0000 <= finalized < 0x8000_0000,
    ensures
        event_applied(r, e).0 == r,
        ({
            let data = inputs_of(r.inputs, frame as i64, 1) + inputs_of(r.inputs, frame as i64, 2)
                + inputs_of(r.inputs, frame as i64, 3);
            event_applied(r, e).1 == (if data.len() > 0 {
                seq![
                    Signal::Frame {
                        frame: frame as i64,
                        last_finalized_frame: finalized as i64,
                        data,
                    },
                ]
            } else {
                Seq::empty()
            })
        }),
{
    lemma_frame_event(e, 0x3c, frame);
    let n = e.subrange(5, 9);
    assert(n[0] == e[5] && n[1] == e[6] && n[2] == e[7] && n[3] == e[8]);
    law_frame_number(e[5], e[6], e[7], e[8], finalized);
}

/// The inputs of three players and the end of their frame, in a row: the report holds the
/// players' inputs whole, in the order of the players, whatever order they came in.
pub proof fn law_inputs_reach_the_report(
    r: ReaderState,
    one: Seq<u8>,
    two: Seq<u8>,
    three: Seq<u8>,
    end: Seq<u8>,
    frame: int,
    finalized: int,
)
    requires
        -0x8000_0000 <= frame < 0x8000_0000,
        -0x8000_0000 <= finalized < 0x8000_0000,
        is_frame_event(one, 0x37, frame),
        is_frame_event(two, 0x37, frame),
        is_frame_event(three, 0x37, frame),
        is_frame_event(end, 0x3c, frame),
        one.len() >= 60,
        two.len() >= 60,
        three.len() >= 60,
        end.len() >= 9,
        one[5] == 1,
        two[5] == 2,
        three[5] == 3,
        end.subrange(5, 9) == i32_bytes(finalized),
    ensures
        ({
            let report = seq![
                Signal::Frame {
                    frame: frame as i64,
                    last_finalized_frame: finalized as i64,
                    data: one.subrange(25, 60) + two.subrange(25, 60) + three.subrange(25, 60),
                },
            ];
            let forth = event_applied(event_applied(event_applied(r, one).0, two).0, three).0;
            let back = event_applied(event_applied(event_applied(r, three).0, two).0, one).0;
            event_applied(forth, end).1 == report && event_applied(back, end).1 == report
        }),
{
    let f1 = event_applied(r, one).0;
    let f2 = event_applied(f1, two).0;
    let f3 = event_applied(f2, three).0;
    let b1 = event_applied(r, three).0;
    let b2 = event_applied(b1, two).0;
    let b3 = event_applied(b2, one).0;
    law_inputs_are_kept(r, one, frame, frame, 1);
    law_inputs_are_kept(f1, two, frame, frame, 1);
    law_inputs_are_kept(f1, two, frame, frame, 2);
    law_inputs_are_kept(f2, three, frame, frame, 1);
    law_inputs_are_kept(f2, three, frame, frame, 2);
    law_inputs_are_kept(f2, three, frame, frame, 3);
    law_inputs_are_kept(r, three, frame, frame, 3);
    law_inputs_are_kept(b1, two, frame, frame, 3);
    law_inputs_are_kept(b1, two, frame, frame, 2);
    law_inputs_are_kept(b2, one, frame, frame, 3);
    law_inputs_are_kept(b2, one, frame, frame, 2);
    law_inputs_are_kept(b2, one, frame, frame, 1);
    law_frame_is_reported(f3, end, frame, finalized);
    law_frame_is_reported(b3, end, frame, finalized);
    assert(one.subrange(25, 60) =~= Seq::new(35, |i: int| one[25 + i]));
    assert(two.subrange(25, 60) =~= Seq::new(35, |i: int| two[25 + i]));
    assert(three.subrange(25, 60) =~= Seq::new(35, |i: int| three[25 + i]));
}

/// The end of a game, and a message that announces one, leave no inputs behind.
pub proof fn law_inputs_end_with_the_game(r: ReaderState, e: Seq<u8>, frame: i64, player: int)
    requires
        e.len() > 0,
        e[0] == 0x39,
    ensures
        inputs_of(event_applied(r, e).0.inputs, frame, player).len() == 0,
        event_applied(r, e).0.inputs.dom() =~= Set::<i64>::empty(),
        event_applied(r, e).0.meta == r.meta,
        event_applied(r, e).0.sent_meta == r.sent_meta,
        event_applied(r, e).0.sizes == r.sizes,
        event_applied(r, e).1.len() == 0,
        inputs_of(game_forgotten(r).inputs, frame, player).len() == 0,
{
}

/// Events of other kinds do nothing.
pub proof fn law_other_events_do_nothing(r: ReaderState, e: Seq<u8>)
    requires
        e.len() > 0,
        !(0x35 <= e[0] <= 0x39),
        e[0] != 0x3c,
    ensures
        event_applied(r, e) == (r, Seq::<Signal>::empty()),
{
}

/// The command byte of an entry of an event that gives the lengths of events.
pub open spec fn entry_command(e: Seq<u8>, k: int) -> u8 {
    e[2 + 3 * k]
}

/// An event that gives the lengths of events: each entry is a command byte and the length
/// behind that byte in two bytes, most significant first. Where a command is named twice,
/// the later entry counts; commands that are not named keep their length.
pub proof fn law_lengths_are_learnt(r: ReaderState, e: Seq<u8>, k: int, command: int)
    requires
        e.len() >= 2,
        e[0] == 0x35,
        r.sizes.len() == 256,
        0 <= command < 256,
        0 <= k <= (e.len() - 2) / 3,
        k < (e.len() - 2) / 3 ==> e[2 + 3 * k] == command,
        forall|j: int| k < j < (e.len() - 2) / 3 ==> #[trigger] entry_command(e, j) != command,
        k == (e.len() - 2) / 3 ==> forall|j: int|
            0 <= j < (e.len() - 2) / 3 ==> #[trigger] entry_command(e, j) != command,
    ensures
        event_applied(r, e).1.len() == 0,
        event_applied(r, e).0.sizes.len() == 256,
        event_applied(r, e).0.sizes[command] == (if k < (e.len() - 2) / 3 {
            (256 * e[3 + 3 * k] + e[4 + 3 * k] + 1) as u32
        } else {
            r.sizes[command]
        }),
        event_applied(r, e).0.meta == r.meta,
        event_applied(r, e).0.sent_meta == r.sent_meta,
        event_applied(r, e).0.inputs == r.inputs,
{
    lemma_lengths(r.sizes, e, k, command, (e.len() - 2) / 3);
}

proof fn lemma_lengths(sizes: Seq<u32>, e: Seq<u8>, k: int, command: int, n: int)
    requires
        sizes.len() == 256,
        0 <= command < 256,
        0 <= k,
        0 <= n,
        2 + 3 * n <= e.len(),
        k < n ==> e[2 + 3 * k] == command,
        forall|j: int| k < j < n ==> #[trigger] entry_command(e, j) != command,
        k >= n ==> forall|j: int| 0 <= j < n ==> #[trigger] entry_command(e, j) != command,
    ensures
        sizes_with(sizes, e, n).len() == 256,
        sizes_with(sizes, e, n)[command] == (if k < n {
            (256 * e[3 + 3 * k] + e[4 + 3 * k] + 1) as u32
        } else {
            sizes[command]
        }),
    decreases n,
{
    if n > 0 {
        let before = sizes_with(sizes, e, n - 1);
        assert(e[3 * n - 1] == e[2 + 3 * (n - 1)]);
        if k == n - 1 {
            lemma_lengths_len(sizes, e, n - 1);
            assert(e[3 * n] == e[3 + 3 * k] && e[3 * n + 1] == e[4 + 3 * k]);
        } else {
            lemma_lengths(sizes, e, k, command, n - 1);
            assert(entry_command(e, n - 1) != command);
        }
    }
}

proof fn lemma_lengths_len(sizes: Seq<u32>, e: Seq<u8>, n: int)
    requires
        sizes.len() == 256,
    ensures
        sizes_with(sizes, e, n).len() == sizes.len(),
    decreases n,
{
    if n > 0 {
        lemma_lengths_len(sizes, e, n - 1);
    }
}

/// Events are taken from a stream one by one, each with its own length: the one learnt
/// for its command byte, or, where it gives lengths itself, the one behind that byte and
/// one more. The rest of the stream follows.
pub proof fn law_events_one_by_one(r: ReaderState, e: Seq<u8>, rest: Seq<u8>)
    requires
        r.sizes.len() == 256,
        e.len() > 0,
        e[0] != 0,
        e[0] == 0x35 ==> e.len() >= 2 && e.len() == e[1] + 1,
        e[0] != 0x35 ==> r.sizes[e[0] as int] == e.len(),
    ensures
        ({
            let (next, out) = event_applied(r, e);
            let (last, more) = stream_applied(next, rest);
            stream_applied(r, e + rest) == (last, out + more)
        }),
{
    let s = e + rest;
    assert(s[0] == e[0]);
    if e[0] == 0x35 {
        assert(s[1] == e[1]);
    }
    assert(s.take(e.len() as int) =~= e);
    assert(s.skip(e.len() as int) =~= rest);
}

/// A stream ends where nothing is left, at a zero byte, at a command byte of unknown
/// length, and at an event that is cut short; what is behind does nothing.
pub proof fn law_streams_end(r: ReaderState, s: Seq<u8>)
    requires
        r.sizes.len() == 256,
        ({
            ||| s.len() == 0
            ||| s[0] == 0
            ||| s[0] != 0x35 && r.sizes[s[0] as int] == 0
            ||| s[0] != 0x35 && r.sizes[s[0] as int] > s.len()
            ||| s[0] == 0x35 && s.len() == 1
            ||| s[0] == 0x35 && s.len() > 1 && s[1] >= s.len()
        }),
    ensures
        stream_applied(r, s) == (r, Seq::<Signal>::empty()),
{
}

/// A game-start event tells the stage, whether teams play, the version, the seed, and the
/// color, the team and the kind of each of four players; no character is known yet, and the
/// game is not reported yet. Shorter events tell no seed, and short ones nothing.
pub proof fn law_game_start_is_read(r: ReaderState, e: Seq<u8>, i: int)
    requires
        e.len() > 0,
        e[0] == 0x36,
        0 <= i < 4,
    ensures
        event_applied(r, e).1.len() == 0,
        !event_applied(r, e).0.sent_meta,
        event_applied(r, e).0.sizes == r.sizes,
        event_applied(r, e).0.inputs == r.inputs,
        e.len() > 128 ==> {
            let meta = event_applied(r, e).0.meta;
            &&& meta.stage == e[20]
            &&& meta.is_teams == (e[13] != 0 || e[14] != 0)
            &&& meta.slp_version == seq![e[1], e[2], e[3]]
            &&& meta.players.len() == 4
            &&& meta.players[i].port == i + 1
            &&& meta.players[i].char == 255
            &&& meta.players[i].color == (if 104 + 36 * i < e.len() {
                e[104 + 36 * i]
            } else {
                0
            })
            &&& meta.players[i].team == (if 110 + 36 * i < e.len() {
                e[110 + 36 * i]
            } else {
                0
            })
            &&& meta.players[i].cpu == (102 + 36 * i < e.len() && e[102 + 36 * i] != 1)
            &&& e.len() > 320 ==> meta.seed == 16_777_216 * e[317] + 65_536 * e[318] + 256 * e[319]
                + e[320]
            &&& e.len() <= 320 ==> meta.seed == 0
        },
        e.len() <= 128 ==> event_applied(r, e).0.meta == unknown_game(),
{
    if e.len() > 320 {
        text::law_u32_be_value(e[317], e[318], e[319], e[320], 0);
    }
}

/// The first post-frame event of a player gives the player's character and reports
/// nothing; other players stay as they are.
pub proof fn law_first_post_frame(r: ReaderState, e: Seq<u8>, k: int, i: int)
    requires
        e.len() >= 8,
        e[0] == 0x38,
        !r.sent_meta,
        0 <= k < r.meta.players.len(),
        r.meta.players[k].port == e[5] + 1,
        forall|j: int| 0 <= j < k ==> (#[trigger] r.meta.players[j]).port != e[5] + 1,
        r.meta.players[k].char == 255,
        0 <= i < r.meta.players.len(),
    ensures
        event_applied(r, e).1.len() == 0,
        !event_applied(r, e).0.sent_meta,
        event_applied(r, e).0.meta.players.len() == r.meta.players.len(),
        event_applied(r, e).0.meta.players[i] == (if i == k {
            PlayerMeta { char: e[7], ..r.meta.players[k] }
        } else {
            r.meta.players[i]
        }),
        event_applied(r, e).0.meta.seed == r.meta.seed,
        event_applied(r, e).0.meta.stage == r.meta.stage,
        event_applied(r, e).0.meta.is_teams == r.meta.is_teams,
        event_applied(r, e).0.meta.slp_version == r.meta.slp_version,
        event_applied(r, e).0.sizes == r.sizes,
        event_applied(r, e).0.inputs == r.inputs,
{
    lemma_player_at(r.meta.players, e[5] + 1, k);
}

/// A further post-frame event of a player whose character is known reports the game, to
/// the crypter and then to the session, once: with the game's own data and with those
/// players, in their order, whose character is known. What was reported before is not
/// reported again, nor is anything on behalf of players that are not there.
pub proof fn law_further_post_frame(r: ReaderState, e: Seq<u8>, k: int)
    requires
        e.len() > 0,
        e[0] == 0x38,
    ensures
        r.sent_meta || e.len() < 8 || (forall|j: int|
            0 <= j < r.meta.players.len() ==> (#[trigger] r.meta.players[j]).port != e[5] + 1)
            ==> event_applied(r, e) == (r, Seq::<Signal>::empty()),
        !r.sent_meta && e.len() >= 8 && 0 <= k < r.meta.players.len() && r.meta.players[k].port
            == e[5] + 1 && r.meta.players[k].char != 255 && (forall|j: int|
            0 <= j < k ==> (#[trigger] r.meta.players[j]).port != e[5] + 1) ==> {
            let (next, out) = event_applied(r, e);
            &&& next.sent_meta
            &&& out == seq![Signal::Reset(next.meta), Signal::NewGame(next.meta)]
            &&& next.meta.seed == r.meta.seed
            &&& next.meta.stage == r.meta.stage
            &&& next.meta.is_teams == r.meta.is_teams
            &&& next.meta.slp_version == r.meta.slp_version
            &&& next.meta.players == r.meta.players.filter(|p: PlayerMeta| p.char != 255)
            &&& next.sizes == r.sizes
            &&& next.inputs == r.inputs
        },
{
    let port = e[5] + 1;
    lemma_player_at_bounds(r.meta.players, port);
    if 0 <= k < r.meta.players.len() && r.meta.players[k].port == port && (forall|j: int|
        0 <= j < k ==> (#[trigger] r.meta.players[j]).port != port) {
        lemma_player_at(r.meta.players, port, k);
    }
}

proof fn lemma_player_at_bounds(players: Seq<PlayerMeta>, port: int)
    ensures
        0 <= player_at(players, port) <= players.len(),
        player_at(players, port) < players.len() ==> players[player_at(players, port)].port == port,
    decreases players.len(),
{
    if players.len() > 0 && players[0].port != port {
        lemma_player_at_bounds(players.skip(1), port);
    }
}

proof fn lemma_player_at(players: Seq<PlayerMeta>, port: int, k: int)
    requires
        0 <= k < players.len(),
        players[k].port == port,
        forall|j: int| 0 <= j < k ==> (#[trigger] players[j]).port != port,
    ensures
        player_at(players, port) == k,
    decreases k,
{
    if k > 0 {
        assert(players[0].port != port);
        let rest = players.skip(1);
        assert forall|j: int| 0 <= j < k - 1 implies (#[trigger] rest[j]).port != port by {
            assert(players[j + 1].port != port);
        }
        lemma_player_at(rest, port, k - 1);
    }
}

/// What the messages of Slippi do. One that announces a game makes the reader forget the
/// game before, but not the lengths of events; one that ends a game is passed on and
/// changes nothing; one that carries events has them applied; others do nothing.
pub proof fn law_messages(r: ReaderState, kind: Seq<char>, payload: Option<Seq<u8>>)
    ensures
        kind == "START_GAME"@ || kind == "start_game"@ ==> (message_applied(r, kind, payload)
            matches Some((next, out)) && {
            &&& out.len() == 0
            &&& next.meta == unknown_game()
            &&& !next.sent_meta
            &&& next.inputs.dom() =~= Set::<i64>::empty()
            &&& next.sizes == r.sizes
        }),
        kind == "END_GAME"@ || kind == "end_game"@ ==> message_applied(r, kind, payload) == Some(
            (r, seq![Signal::GameEnd]),
        ),
        kind == "GAME_EVENT"@ || kind == "game_event"@ ==> {
            &&& payload is None ==> message_applied(r, kind, payload) == Some(
                (r, Seq::<Signal>::empty()),
            )
            &&& payload matches Some(bytes) ==> message_applied(r, kind, payload) == (
            if stream_readable(r.sizes, bytes) {
                Some(stream_applied(r, bytes))
            } else {
                None
            })
        },
        kind != "START_GAME"@ && kind != "start_game"@ && kind != "END_GAME"@ && kind
            != "end_game"@ && kind != "GAME_EVENT"@ && kind != "game_event"@ ==> message_applied(
            r,
            kind,
            payload,
        ) == Some((r, Seq::<Signal>::empty())),
{
    reveal_strlit("START_GAME");
    reveal_strlit("start_game");
    reveal_strlit("END_GAME");
    reveal_strlit("end_game");
    reveal_strlit("GAME_EVENT");
    reveal_strlit("game_event");
    assert("START_GAME"@.len() == 10 && "start_game"@.len() == 10);
    assert("END_GAME"@.len() == 8 && "end_game"@.len() == 8);
    assert("GAME_EVENT"@[0] == 'G' && "START_GAME"@[0] == 'S');
    assert("game_event"@[0] == 'g' && "start_game"@[0] == 's');
}

/// The number that bytes stand for, most significant first.
pub open spec fn bytes_value(bytes: Seq<u8>) -> int
    decreases bytes.len(),
{
    if bytes.len() == 0 {
        0
    } else {
        256 * bytes_value(bytes.drop_last()) + bytes.last()
    }
}

/// The bytes of a cursor stand for the cursor, most significant first, and start with a
/// zero only where the cursor is zero.
pub proof fn law_cursor_value(n: nat)
    ensures
        cursor_bytes(n).len() > 0,
        bytes_value(cursor_bytes(n)) == n,
        n > 0 ==> cursor_bytes(n)[0] != 0,
        n == 0 ==> cursor_bytes(n) == seq![0u8],
    decreases n,
{
    reveal_with_fuel(bytes_value, 2);
    if n < 256 {
        assert(cursor_bytes(n).drop_last() =~= Seq::empty());
    } else {
        law_cursor_value(n / 256);
        assert(cursor_bytes(n).drop_last() =~= cursor_bytes(n / 256));
        assert(cursor_bytes(n)[0] == cursor_bytes(n / 256)[0]);
    }
}

/// An acknowledgement says how long it is in four bytes, most significant first, and then
/// holds the cursor and the token byte by byte; a reply is never a real-time one, and
/// comes exactly where a cursor is named.
pub proof fn law_replies(next_cursor: Option<u64>, token: u32)
    ensures
        reply_of(next_cursor, token) is Some <==> next_cursor is Some,
        next_cursor matches Some(n) ==> {
            let reply = reply_of(next_cursor, token).unwrap();
            let body = encoding::ubjson_handshake_of(
                1,
                cursor_bytes(n as nat),
                text::u32_be(token),
                false,
            );
            &&& reply.len() == 4 + body.len()
            &&& reply.skip(4) == body
            &&& 16_777_216 * reply[0] + 65_536 * reply[1] + 256 * reply[2] + reply[3]
                == body.len()
        },
{
    if next_cursor is Some {
        let n = next_cursor.unwrap() as nat;
        reveal_with_fuel(cursor_bytes, 9);
        let cursor = cursor_bytes(n);
        assert(cursor.len() <= 8);
        let body = encoding::ubjson_handshake_of(1, cursor, text::u32_be(token), false);
        text::law_u32_be_value(0, 0, 0, 0, body.len() as u32);
        assert(reply_of(next_cursor, token).unwrap().skip(4) =~= body);
    }
}

/// A packet is read as JSON: the message's kind, its payload in base64 and the next cursor.
/// A packet that is not JSON does nothing and asks for nothing; a missing kind is an
/// unknown one, and a payload that is not base64 is none.
pub proof fn law_packets_are_read(r: ReaderState, token: u32, data: Seq<u8>)
    ensures
        data.len() == 0 ==> packet_applied(r, token, data) == Some(
            (r, Seq::<Signal>::empty(), None::<Seq<u8>>),
        ),
        encoding::json_fields_of(data, "type"@, "payload"@, "next_cursor"@) is None
            ==> packet_applied(r, token, data) == Some(
            (r, Seq::<Signal>::empty(), None::<Seq<u8>>),
        ),
        data.len() > 0 ==> (encoding::json_fields_of(data, "type"@, "payload"@, "next_cursor"@)
            matches Some((kind, payload, next_cursor)) ==> {
            let bytes = match payload {
                Some(encoded) => encoding::base64_std_bytes(encoded),
                None => None,
            };
            let kind = match kind {
                Some(kind) => kind,
                None => Seq::empty(),
            };
            &&& packet_applied(r, token, data) is Some <==> message_applied(r, kind, bytes) is Some
            &&& packet_applied(r, token, data) matches Some((next, out, reply)) ==> {
                &&& message_applied(r, kind, bytes) == Some((next, out))
                &&& reply == reply_of(next_cursor, token)
            }
        }),
{
}

/// The reader can take a stream exactly if each pre-frame event in it that names a player is
/// at least 60 bytes long.
pub proof fn law_readable_events(r: ReaderState, e: Seq<u8>, rest: Seq<u8>)
    requires
        r.sizes.len() == 256,
        e.len() > 0,
        e[0] != 0,
        e[0] == 0x35 ==> e.len() >= 2 && e.len() == e[1] + 1,
        e[0] != 0x35 ==> r.sizes[e[0] as int] == e.len(),
    ensures
        stream_readable(r.sizes, e + rest) <==> !(e[0] == 0x37 && 6 <= e.len() < 60)
            && stream_readable(event_applied(r, e).0.sizes, rest),
{
    let s = e + rest;
    assert(s[0] == e[0]);
    if e[0] == 0x35 {
        assert(s[1] == e[1]);
    }
    assert(s.take(e.len() as int) =~= e);
    assert(s.skip(e.len() as int) =~= rest);
}

/// Which events there are: those of the commands 0x35 to 0x3c, in this order, and of 0x10;
/// no other command stands for an event.
pub proof fn law_commands(b: u8)
    ensures
        event_type_of(b) is None <==> b != 0x10 && !(0x35 <= b <= 0x3c),
        0x35 <= b <= 0x3c ==> event_type_of(b) == Some(
            seq![
                SLPEventType::Payloads,
                SLPEventType::GameStart,
                SLPEventType::PreFrame,
                SLPEventType::PostFrame,
                SLPEventType::GameEnd,
                SLPEventType::FrameStart,
                SLPEventType::ItemUpdate,
                SLPEventType::FrameBookend,
            ][b - 0x35],
        ),
        b == 0x10 ==> event_type_of(b) == Some(SLPEventType::GeckoCodes),
{
}

} // verus!
