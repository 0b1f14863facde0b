//! Input-based encryption keys: absorbs the game's finalized controller inputs
//! and derives the session's keys from them.

use std::collections::HashMap;

use vstd::prelude::*;

use crate::crypto::{self, Shake};
use crate::dolphin::{GameMeta, InputFrame, Meta};
use crate::text;

verus! {

broadcast use vstd::std_specs::hash::group_hash_axioms;

/// A key, and how many frames it was derived from.
#[derive(Clone, Copy, Debug)]
pub struct GameKey {
    /// Frames absorbed before the key was derived.
    pub frames: u64,
    /// The key.
    pub key: [u8; 32],
}

/// What the crypter tells the session.
#[derive(Clone, Debug)]
pub enum CrypterUpdate {
    /// A key is there.
    Key(GameKey),
    /// The latest key is to be used from now on.
    Rotate,
}

/// Mathematical value of a [`CrypterUpdate`].
pub enum Update {
    /// A key is there.
    Key { frames: int, key: Seq<u8> },
    /// The latest key is to be used from now on.
    Rotate,
}

impl View for CrypterUpdate {
    type V = Update;

    open spec fn view(&self) -> Update {
        match self {
            CrypterUpdate::Key(k) => Update::Key { frames: k.frames as int, key: k.key@ },
            CrypterUpdate::Rotate => Update::Rotate,
        }
    }
}

/// Values of some updates.
pub open spec fn updates(v: Seq<CrypterUpdate>) -> Seq<Update> {
    Seq::new(v.len(), |i: int| v[i]@)
}

/// What the reader hands to the crypter.
#[derive(Debug)]
pub enum CrypterInput {
    /// The inputs of one frame.
    Frame(InputFrame),
    /// A new game has started.
    Reset(GameMeta),
}

/// A sponge, and how many frames it has absorbed.
pub struct SLPcryptoSponge {
    /// Holds the seed and the inputs.
    pub sponge: Shake,
    /// Frames absorbed.
    pub frames: u64,
}

impl SLPcryptoSponge {
    /// A sponge that has absorbed a game's seed.
    pub fn new(seed: [u8; 4]) -> (sponge: SLPcryptoSponge)
        ensures
            crypto::absorbed(sponge.sponge) == seed@,
            sponge.frames == 0,
    {
        let mut sponge = crypto::shake_new();
        crypto::shake_update(&mut sponge, &seed);
        assert(Seq::<u8>::empty() + seed@ =~= seed@);
        Self { sponge, frames: 0 }
    }
}

/// Mathematical value of a [`SLPcrypter`].
#[verifier::ext_equal]
pub struct CrypterState {
    /// The game, once there is one.
    pub meta: Option<Meta>,
    /// Everything absorbed: the game's seed, then inputs.
    pub absorbed: Seq<u8>,
    /// Frames absorbed.
    pub frames: int,
    /// Inputs of frames that are not absorbed.
    pub pending: Map<i64, Seq<u8>>,
    /// The last frame that can no longer change.
    pub last_finalized: Option<i64>,
    /// Frames between two keys.
    pub rollover: int,
    /// Frames between a key and its use.
    pub offset: int,
    /// Frames absorbed before the last key.
    pub last_key: int,
    /// Frames after which the last key is to be used.
    pub rotate_at: Option<int>,
}

/// Absorbs a frame's inputs, if they are there.
pub open spec fn frame_absorbed(st: CrypterState, f: i64) -> CrypterState {
    if st.pending.contains_key(f) {
        CrypterState {
            absorbed: st.absorbed + st.pending[f],
            frames: st.frames + 1,
            pending: st.pending.remove(f),
            ..st
        }
    } else {
        st
    }
}

/// Derives a key when enough frames have been absorbed since the last one, and
/// schedules its use.
pub open spec fn key_derived(st: CrypterState) -> (CrypterState, Seq<Update>) {
    if st.frames >= st.last_key + st.rollover {
        (
            CrypterState {
                last_key: st.frames,
                rotate_at: Some(st.last_key + st.rollover + st.offset),
                ..st
            },
            seq![Update::Key { frames: st.frames, key: crypto::shake256_of(st.absorbed) }],
        )
    } else {
        (st, Seq::empty())
    }
}

/// Puts the last key to use when its time has come.
pub open spec fn key_rotated(st: CrypterState) -> (CrypterState, Seq<Update>) {
    if st.rotate_at == Some(st.frames) {
        (CrypterState { rotate_at: None, ..st }, seq![Update::Rotate])
    } else {
        (st, Seq::empty())
    }
}

/// What finalizing one frame does.
pub open spec fn frame_finalized(st: CrypterState, f: i64) -> (CrypterState, Seq<Update>) {
    let (derived, key) = key_derived(frame_absorbed(st, f));
    let (rotated, rotation) = key_rotated(derived);
    (rotated, key + rotation)
}

/// What finalizing the frames from `a` up to `b` does.
pub open spec fn range_finalized(st: CrypterState, a: int, b: int) -> (CrypterState, Seq<Update>)
    decreases b - a + 1,
{
    if a > b {
        (st, Seq::empty())
    } else {
        let (before, out) = range_finalized(st, a, b - 1);
        let (after, last) = frame_finalized(before, b as i64);
        (after, out + last)
    }
}

/// What a frame's inputs do. They replace earlier inputs of that frame; frames
/// that became final since the last call are absorbed in order. Without a game
/// nothing happens.
pub open spec fn frame_handled(
    st: CrypterState,
    frame: i64,
    finalized: i64,
    data: Seq<u8>,
) -> (CrypterState, Seq<Update>) {
    if st.meta is None {
        (st, Seq::empty())
    } else {
        let (next, out) = range_finalized(
            CrypterState { pending: st.pending.insert(frame, data), ..st },
            match st.last_finalized {
                Some(last) => last + 1,
                None => finalized as int,
            },
            finalized as int,
        );
        (
            CrypterState {
                last_finalized: match st.last_finalized {
                    Some(last) => if last > finalized {
                        Some(last)
                    } else {
                        Some(finalized)
                    },
                    None => Some(finalized),
                },
                ..next
            },
            out,
        )
    }
}

/// What the start of a game does: everything begins anew with the game's seed,
/// and the first key is there at once.
pub open spec fn game_started(st: CrypterState, meta: Meta) -> (CrypterState, Seq<Update>) {
    (
        CrypterState {
            meta: Some(meta),
            absorbed: text::u32_be(meta.seed),
            frames: 0,
            pending: Map::empty(),
            last_finalized: None,
            last_key: 0,
            rotate_at: None,
            ..st
        },
        seq![Update::Key { frames: 0, key: crypto::shake256_of(text::u32_be(meta.seed)) }],
    )
}

/// What taking over a rollover and an offset does: they count from now on, and nothing else
/// changes.
pub open spec fn reconfigured(st: CrypterState, rollover: int, offset: int) -> CrypterState {
    CrypterState { rollover, offset, ..st }
}

/// Absorbs inputs and emits keys.
pub struct SLPcrypter {
    sponge: SLPcryptoSponge,
    frame_data: HashMap<i64, Vec<u8>>,
    last_finalized_frame: Option<i64>,
    meta: Option<GameMeta>,
    update_key_per_frames: u64,
    rollback_offset_frames: u64,
    last_key_frame: u64,
    pending_rotate_at: Option<u128>,
}

impl View for SLPcrypter {
    type V = CrypterState;

    closed spec fn view(&self) -> CrypterState {
        CrypterState {
            meta: match self.meta {
                Some(m) => Some(m@),
                None => None,
            },
            absorbed: crypto::absorbed(self.sponge.sponge),
            frames: self.sponge.frames as int,
            pending: self.frame_data@.map_values(|v: Vec<u8>| v@),
            last_finalized: self.last_finalized_frame,
            rollover: self.update_key_per_frames as int,
            offset: self.rollback_offset_frames as int,
            last_key: self.last_key_frame as int,
            rotate_at: match self.pending_rotate_at {
                Some(n) => Some(n as int),
                None => None,
            },
        }
    }
}

/// Whether the count of absorbed frames can still take in all pending frames and
/// another one.
pub open spec fn has_room_for_frame(st: CrypterState) -> bool {
    st.frames + st.pending.len() < u64::MAX
}

impl SLPcrypter {
    /// A crypter without a game.
    pub fn new(update_key_per_frames: u64, rollback_offset_frames: u64) -> (crypter: SLPcrypter)
        ensures
            crypter@ == (CrypterState {
                meta: None,
                absorbed: seq![0u8, 0u8, 0u8, 0u8],
                frames: 0,
                pending: Map::empty(),
                last_finalized: None,
                rollover: update_key_per_frames as int,
                offset: rollback_offset_frames as int,
                last_key: 0,
                rotate_at: None,
            }),
    {
        let seed: [u8; 4] = [0, 0, 0, 0];
        assert(seed@ =~= seq![0u8, 0u8, 0u8, 0u8]);
        let crypter = Self {
            sponge: SLPcryptoSponge::new(seed),
            frame_data: HashMap::new(),
            last_finalized_frame: None,
            meta: None,
            update_key_per_frames,
            rollback_offset_frames,
            last_key_frame: 0,
            pending_rotate_at: None,
        };
        assert(crypter@.pending =~= Map::empty());
        crypter
    }

    /// Changes how often keys are made and when they are used, from now on.
    pub fn reconfigure(&mut self, rollover: u64, offset: u64)
        ensures
            final(self)@ == reconfigured(old(self)@, rollover as int, offset as int),
            final(self)@ == (CrypterState {
                rollover: rollover as int,
                offset: offset as int,
                ..old(self)@
            }),
    {
        self.update_key_per_frames = rollover;
        self.rollback_offset_frames = offset;
    }

    /// Starts a game.
    pub fn reset(&mut self, meta: GameMeta) -> (out: Vec<CrypterUpdate>)
        ensures
            (final(self)@, updates(out@)) == game_started(old(self)@, meta@),
    {
        self.sponge = SLPcryptoSponge::new(text::u32_to_be(meta.seed));
        self.frame_data = HashMap::new();
        self.last_finalized_frame = None;
        self.last_key_frame = 0;
        self.pending_rotate_at = None;
        self.meta = Some(meta);
        let mut out: Vec<CrypterUpdate> = Vec::new();
        assert(updates(out@) =~= Seq::empty());
        match self.derive_current_key() {
            Some(key) => {
                out.push(CrypterUpdate::Key(key));
            },
            None => {},
        }
        assert(self@.pending =~= Map::empty());
        assert(updates(out@) =~= game_started(old(self)@, meta@).1);
        out
    }

    /// The key that everything absorbed so far gives; none without a game.
    pub fn derive_current_key(&self) -> (key: Option<GameKey>)
        ensures
            match key {
                Some(k) => {
                    &&& self@.meta is Some
                    &&& k.frames == self@.frames
                    &&& k.key@ == crypto::shake256_of(self@.absorbed)
                },
                None => self@.meta is None,
            },
    {
        if self.meta.is_none() {
            return None;
        }
        Some(GameKey { frames: self.sponge.frames, key: crypto::shake_squeeze(&self.sponge.sponge) })
    }

    /// Tells whether the count of absorbed frames can still take in all pending
    /// frames and another one.
    pub fn has_room(&self) -> (room: bool)
        ensures
            room == has_room_for_frame(self@),
    {
        assert(self@.pending.dom() =~= self.frame_data@.dom());
        (self.sponge.frames as u128) + (self.frame_data.len() as u128) < u64::MAX as u128
    }

    /// Finalizes one frame.
    fn finalize_frame(&mut self, f: i64, out: &mut Vec<CrypterUpdate>)
        requires
            old(self)@.meta is Some,
            old(self)@.frames + old(self)@.pending.len() <= u64::MAX,
        ensures
            final(self)@ == frame_finalized(old(self)@, f).0,
            updates(final(out)@) == updates(old(out)@) + frame_finalized(old(self)@, f).1,
            final(self)@.frames + final(self)@.pending.len() == old(self)@.frames
                + old(self)@.pending.len(),
    {
        let ghost before = self@;
        assert(self@.pending.dom() =~= self.frame_data@.dom());
        match self.frame_data.remove(&f) {
            Some(data) => {
                assert(old(self)@.pending.dom().remove(f).len() == old(self)@.pending.dom().len()
                    - 1);
                crypto::shake_update(&mut self.sponge.sponge, data.as_slice());
                self.sponge.frames = self.sponge.frames + 1;
                assert(self@.pending =~= before.pending.remove(f));
            },
            None => {
                assert(self@.pending =~= before.pending);
            },
        }
        assert(self@ =~= frame_absorbed(before, f));
        let ghost absorbed = self@;
        let target: u128 = self.last_key_frame as u128 + self.update_key_per_frames as u128;
        if self.sponge.frames as u128 >= target {
            match self.derive_current_key() {
                Some(key) => {
                    out.push(CrypterUpdate::Key(key));
                    self.last_key_frame = self.sponge.frames;
                    self.pending_rotate_at = Some(target + self.rollback_offset_frames as u128);
                },
                None => {},
            }
        }
        assert(self@ =~= key_derived(absorbed).0);
        assert(updates(out@) =~= updates(old(out)@) + key_derived(absorbed).1);
        let ghost derived = self@;
        let ghost with_key = updates(out@);
        match self.pending_rotate_at {
            Some(rotate_at) => {
                if self.sponge.frames as u128 == rotate_at {
                    out.push(CrypterUpdate::Rotate);
                    self.pending_rotate_at = None;
                }
            },
            None => {},
        }
        assert(self@ =~= key_rotated(derived).0);
        assert(updates(out@) =~= with_key + key_rotated(derived).1);
        assert(updates(out@) =~= updates(old(out)@) + frame_finalized(before, f).1);
    }

    /// Takes in the inputs of a frame.
    pub fn handle_frame(&mut self, frame: InputFrame) -> (out: Vec<CrypterUpdate>)
        requires
            has_room_for_frame(old(self)@),
        ensures
            (final(self)@, updates(out@)) == frame_handled(
                old(self)@,
                frame.frame,
                frame.last_finalized_frame,
                frame.data@,
            ),
    {
        let mut out: Vec<CrypterUpdate> = Vec::new();
        assert(updates(out@) =~= Seq::empty());
        if self.meta.is_none() {
            return out;
        }
        let ghost data = frame.data@;
        let finalized: i64 = frame.last_finalized_frame;
        assert(self@.pending.dom() =~= self.frame_data@.dom());
        self.frame_data.insert(frame.frame, frame.data);
        let ghost start = CrypterState {
            pending: old(self)@.pending.insert(frame.frame, data),
            ..old(self)@
        };
        assert(self@.pending =~= start.pending);
        assert(start.pending.dom() =~= old(self)@.pending.dom().insert(frame.frame));
        assert(self@ =~= start);
        let nothing_new = match self.last_finalized_frame {
            Some(last) => last >= finalized,
            None => false,
        };
        let ghost a = match old(self)@.last_finalized {
            Some(last) => last + 1,
            None => finalized as int,
        };
        if !nothing_new {
            let mut f: i64 = match self.last_finalized_frame {
                Some(last) => last + 1,
                None => finalized,
            };
            let ghost total = start.frames + start.pending.len();
            loop
                invariant_except_break
                    a <= f <= finalized,
                    (self@, updates(out@)) == range_finalized(start, a, f - 1),
                    self@.frames + self@.pending.len() == total,
                invariant
                    total <= u64::MAX,
                    self@.meta is Some,
                ensures
                    (self@, updates(out@)) == range_finalized(start, a, finalized as int),
                decreases finalized - f,
            {
                self.finalize_frame(f, &mut out);
                if f == finalized {
                    break;
                }
                f += 1;
            }
        }
        if !nothing_new {
            self.last_finalized_frame = Some(finalized);
        }
        assert(self@ =~= frame_handled(old(self)@, frame.frame, finalized, data).0);
        out
    }

    /// Takes in what the reader hands over.
    pub fn handle_input(&mut self, input: CrypterInput) -> (out: Vec<CrypterUpdate>)
        requires
            input is Frame ==> has_room_for_frame(old(self)@),
        ensures
            (final(self)@, updates(out@)) == match input {
                CrypterInput::Frame(frame) => frame_handled(
                    old(self)@,
                    frame.frame,
                    frame.last_finalized_frame,
                    frame.data@,
                ),
                CrypterInput::Reset(meta) => game_started(old(self)@, meta@),
            },
    {
        match input {
            CrypterInput::Frame(frame) => self.handle_frame(frame),
            CrypterInput::Reset(meta) => self.reset(meta),
        }
    }
}

// ---------------------------------------------------------------------------
// Laws
// ---------------------------------------------------------------------------
/// How frames become final does not matter: finalizing a range at once is the
/// same as finalizing it in two parts.
pub proof fn law_finalizing_in_parts(st: CrypterState, a: int, b: int, c: int)
    requires
        a <= b + 1,
        b <= c,
    ensures
        ({
            let (mid, first) = range_finalized(st, a, b);
            let (end, second) = range_finalized(mid, b + 1, c);
            range_finalized(st, a, c) == (end, first + second)
        }),
    decreases c - b,
{
    let (mid, first) = range_finalized(st, a, b);
    if b == c {
        assert(first + Seq::<Update>::empty() =~= first);
    } else {
        law_finalizing_in_parts(st, a, b, c - 1);
        let (end, second) = range_finalized(mid, b + 1, c - 1);
        let last = frame_finalized(end, c as i64).1;
        assert((first + second) + last =~= first + (second + last));
    }
}

/// Whether two crypters agree on everything but inputs of frames outside a range.
pub open spec fn agree_on(x: CrypterState, y: CrypterState, a: int, b: int) -> bool {
    &&& x.absorbed == y.absorbed
    &&& x.frames == y.frames
    &&& x.rollover == y.rollover
    &&& x.offset == y.offset
    &&& x.last_key == y.last_key
    &&& x.rotate_at == y.rotate_at
    &&& forall|f: i64|
        a <= f <= b ==> #[trigger] x.pending.contains_key(f) == y.pending.contains_key(f) && (
        x.pending.contains_key(f) ==> x.pending[f] == y.pending[f])
}

/// Peers agree on their keys: crypters that agree on everything absorbed and on
/// the inputs of the frames that become final, whatever inputs of other frames
/// they hold, emit the same updates and agree afterwards.
pub proof fn law_same_inputs_same_keys(x: CrypterState, y: CrypterState, a: int, b: int)
    requires
        agree_on(x, y, a, b),
        i64::MIN <= a,
        b <= i64::MAX,
    ensures
        range_finalized(x, a, b).1 == range_finalized(y, a, b).1,
        agree_on(range_finalized(x, a, b).0, range_finalized(y, a, b).0, b + 1, b),
{
    lemma_same_inputs(x, y, a, b, b);
}

proof fn lemma_same_inputs(x: CrypterState, y: CrypterState, a: int, m: int, b: int)
    requires
        agree_on(x, y, a, b),
        i64::MIN <= a,
        m <= b <= i64::MAX,
    ensures
        range_finalized(x, a, m).1 == range_finalized(y, a, m).1,
        agree_on(
            range_finalized(x, a, m).0,
            range_finalized(y, a, m).0,
            if m < a {
                a
            } else {
                m + 1
            },
            b,
        ),
    decreases m - a + 1,
{
    if a <= m {
        lemma_same_inputs(x, y, a, m - 1, b);
        let xm = range_finalized(x, a, m - 1).0;
        let ym = range_finalized(y, a, m - 1).0;
        assert(xm.pending.contains_key(m as i64) == ym.pending.contains_key(m as i64));
        assert(agree_on(frame_absorbed(xm, m as i64), frame_absorbed(ym, m as i64), m + 1, b));
    }
}

/// A rollback replaces inputs: while a frame is not final, only the inputs that
/// were handed over last for it count.
pub proof fn law_rollback_replaces(
    st: CrypterState,
    frame: i64,
    first_finalized: i64,
    first: Seq<u8>,
    finalized: i64,
    data: Seq<u8>,
)
    requires
        st.last_finalized matches Some(last) && first_finalized <= last,
    ensures
        frame_handled(frame_handled(st, frame, first_finalized, first).0, frame, finalized, data)
            == frame_handled(st, frame, finalized, data),
{
    let once = frame_handled(st, frame, first_finalized, first).0;
    if st.meta is Some {
        assert(once =~= CrypterState { pending: st.pending.insert(frame, first), ..st });
        assert(once.pending.insert(frame, data) =~= st.pending.insert(frame, data));
        assert(CrypterState { pending: once.pending.insert(frame, data), ..once } =~= CrypterState {
            pending: st.pending.insert(frame, data),
            ..st
        });
    }
}

/// One call of [`SLPcrypter::handle_frame`].
pub struct FrameCall {
    /// The frame.
    pub frame: i64,
    /// The last frame that can no longer change.
    pub finalized: i64,
    /// The frame's inputs.
    pub data: Seq<u8>,
}

/// What several calls one after another do: the crypter afterwards, and the updates
/// of all of them, in order.
pub open spec fn frames_handled(st: CrypterState, calls: Seq<FrameCall>) -> (
    CrypterState,
    Seq<Update>,
)
    decreases calls.len(),
{
    if calls.len() == 0 {
        (st, Seq::empty())
    } else {
        let (before, out) = frames_handled(st, calls.drop_last());
        let last = calls.last();
        let (after, more) = frame_handled(before, last.frame, last.finalized, last.data);
        (after, out + more)
    }
}

/// The last frame that some calls have made final.
pub open spec fn highest_finalized(calls: Seq<FrameCall>) -> i64
    decreases calls.len(),
{
    if calls.len() <= 1 {
        calls.last().finalized
    } else {
        let before = highest_finalized(calls.drop_last());
        if before > calls.last().finalized {
            before
        } else {
            calls.last().finalized
        }
    }
}

/// The inputs of a frame that count: those given last for it, up to the call that
/// makes the frame final.
pub open spec fn settled_inputs(calls: Seq<FrameCall>, f: i64) -> Option<Seq<u8>>
    decreases calls.len(),
{
    if calls.len() == 0 {
        None
    } else {
        let before = calls.drop_last();
        if before.len() > 0 && highest_finalized(before) >= f {
            settled_inputs(before, f)
        } else if calls.last().frame == f {
            Some(calls.last().data)
        } else {
            settled_inputs(before, f)
        }
    }
}

/// Whether a crypter holds, of the frames of a range, exactly the inputs that count.
spec fn holds_settled(st: CrypterState, calls: Seq<FrameCall>, a: int, b: int) -> bool {
    forall|f: i64|
        a <= f <= b ==> #[trigger] st.pending.contains_key(f) == (settled_inputs(calls, f) is Some)
            && (st.pending.contains_key(f) ==> Some(st.pending[f]) == settled_inputs(calls, f))
}

proof fn lemma_range_leaves_others(st: CrypterState, a: int, b: int, f: i64)
    requires
        i64::MIN <= a,
        b <= i64::MAX,
        !(a <= f <= b),
    ensures
        range_finalized(st, a, b).0.pending.contains_key(f) == st.pending.contains_key(f),
        st.pending.contains_key(f) ==> range_finalized(st, a, b).0.pending[f] == st.pending[f],
    decreases b - a + 1,
{
    if a <= b {
        lemma_range_leaves_others(st, a, b - 1, f);
    }
}

proof fn lemma_range_keeps(st: CrypterState, a: int, b: int)
    ensures
        range_finalized(st, a, b).0.meta == st.meta,
        range_finalized(st, a, b).0.last_finalized == st.last_finalized,
    decreases b - a + 1,
{
    if a <= b {
        lemma_range_keeps(st, a, b - 1);
    }
}

/// A run of calls emits what finalizing one range does whose frames hold the inputs
/// that count.
proof fn lemma_run(st: CrypterState, ideal: CrypterState, calls: Seq<FrameCall>)
    requires
        calls.len() > 0,
        st.meta is Some,
        st.last_finalized is None,
        st.pending == Map::<i64, Seq<u8>>::empty(),
        agree_on(st, ideal, 1, 0),
        holds_settled(
            ideal,
            calls,
            calls[0].finalized as int,
            highest_finalized(calls) as int,
        ),
    ensures
        ({
            let (end, out) = frames_handled(st, calls);
            let first = calls[0].finalized as int;
            let high = highest_finalized(calls);
            let (ideal_end, ideal_out) = range_finalized(ideal, first, high as int);
            &&& out == ideal_out
            &&& agree_on(end, ideal_end, 1, 0)
            &&& end.meta == st.meta
            &&& end.last_finalized == Some(high)
            &&& first <= high
            &&& holds_settled(end, calls, high + 1, i64::MAX as int)
        }),
    decreases calls.len(),
{
    let first = calls[0].finalized as int;
    let last = calls.last();
    let high = highest_finalized(calls) as int;
    let before = calls.drop_last();
    let (mid, out) = frames_handled(st, before);
    let given = CrypterState { pending: mid.pending.insert(last.frame, last.data), ..mid };
    if before.len() == 0 {
        assert(agree_on(given, ideal, first, high)) by {
            assert forall|f: i64| first <= f <= high implies #[trigger] given.pending.contains_key(f)
                == ideal.pending.contains_key(f) && (given.pending.contains_key(f)
                ==> given.pending[f] == ideal.pending[f]) by {
                assert(settled_inputs(before, f) is None);
                assert(ideal.pending.contains_key(f) == (settled_inputs(calls, f) is Some));
            }
        }
        lemma_same_inputs(given, ideal, first, high, high);
        lemma_range_keeps(given, first, high);
        let end = frames_handled(st, calls).0;
        assert(out + range_finalized(given, first, high).1 =~= range_finalized(given, first, high).1);
        assert forall|f: i64| high + 1 <= f <= i64::MAX implies #[trigger] end.pending.contains_key(f)
            == (settled_inputs(calls, f) is Some) && (end.pending.contains_key(f) ==> Some(
            end.pending[f],
        ) == settled_inputs(calls, f)) by {
            lemma_range_leaves_others(given, first, high, f);
            assert(settled_inputs(before, f) is None);
        }
    } else {
        assert(before[0] == calls[0]);
        let high_before = highest_finalized(before) as int;
        assert forall|f: i64| first <= f <= high_before implies #[trigger] ideal.pending.contains_key(f)
            == (settled_inputs(before, f) is Some) && (ideal.pending.contains_key(f) ==> Some(
            ideal.pending[f],
        ) == settled_inputs(before, f)) by {
            assert(settled_inputs(calls, f) == settled_inputs(before, f));
        }
        lemma_run(st, ideal, before);
        let ideal_mid = range_finalized(ideal, first, high_before).0;
        assert(agree_on(given, ideal_mid, high_before + 1, high)) by {
            assert forall|f: i64|
                high_before + 1 <= f <= high implies #[trigger] given.pending.contains_key(f)
                == ideal_mid.pending.contains_key(f) && (given.pending.contains_key(f)
                ==> given.pending[f] == ideal_mid.pending[f]) by {
                lemma_range_leaves_others(ideal, first, high_before, f);
                assert(ideal.pending.contains_key(f) == (settled_inputs(calls, f) is Some));
                assert(mid.pending.contains_key(f) == (settled_inputs(before, f) is Some));
            }
        }
        lemma_same_inputs(given, ideal_mid, high_before + 1, high, high);
        law_finalizing_in_parts(ideal, first, high_before, high);
        lemma_range_keeps(given, high_before + 1, high);
        if last.finalized as int <= high_before {
            assert(range_finalized(given, high_before + 1, last.finalized as int)
                == range_finalized(given, high_before + 1, high));
        }
        let end = frames_handled(st, calls).0;
        assert forall|f: i64| high + 1 <= f <= i64::MAX implies #[trigger] end.pending.contains_key(f)
            == (settled_inputs(calls, f) is Some) && (end.pending.contains_key(f) ==> Some(
            end.pending[f],
        ) == settled_inputs(calls, f)) by {
            lemma_range_leaves_others(given, high_before + 1, high, f);
            assert(mid.pending.contains_key(f) == (settled_inputs(before, f) is Some));
        }
    }
}

/// Peers derive the same keys from the same game: two crypters with the same
/// intervals and the same seed emit the same updates, whatever calls they get, as
/// long as the first calls name the same final frame, each frame has the same inputs
/// that count, and the last final frame is the same. Inputs that a rollback
/// replaced, inputs that came after their frame was final, and how many frames
/// became final at once do not matter.
pub proof fn law_same_game_same_keys(
    x: CrypterState,
    y: CrypterState,
    m: Meta,
    n: Meta,
    c: Seq<FrameCall>,
    d: Seq<FrameCall>,
)
    requires
        x.rollover == y.rollover,
        x.offset == y.offset,
        m.seed == n.seed,
        c.len() > 0,
        d.len() > 0,
        c[0].finalized == d[0].finalized,
        highest_finalized(c) == highest_finalized(d),
        forall|f: i64|
            c[0].finalized <= f <= highest_finalized(c) ==> #[trigger] settled_inputs(c, f)
                == settled_inputs(d, f),
    ensures
        game_started(x, m).1 == game_started(y, n).1,
        frames_handled(game_started(x, m).0, c).1 == frames_handled(game_started(y, n).0, d).1,
{
    let first = c[0].finalized;
    let high = highest_finalized(c);
    let sx = game_started(x, m).0;
    let sy = game_started(y, n).0;
    let ideal = CrypterState {
        pending: Map::new(
            |f: i64| first <= f <= high && settled_inputs(c, f) is Some,
            |f: i64| settled_inputs(c, f).unwrap(),
        ),
        ..sx
    };
    assert(holds_settled(ideal, c, first as int, high as int));
    assert(holds_settled(ideal, d, first as int, high as int));
    lemma_run(sx, ideal, c);
    lemma_run(sy, ideal, d);
}

/// The inputs of the frames from `a` up to `b` one after another, whole and in order of
/// the frames; frames without inputs contribute nothing.
pub open spec fn inputs_between(inputs: spec_fn(i64) -> Option<Seq<u8>>, a: int, b: int) -> Seq<u8>
    decreases b - a + 1,
{
    if a > b {
        Seq::empty()
    } else {
        inputs_between(inputs, a, b - 1) + (match inputs(b as i64) {
            Some(data) => data,
            None => Seq::empty(),
        })
    }
}

/// How many of the frames from `a` up to `b` have inputs.
pub open spec fn frames_between(inputs: spec_fn(i64) -> Option<Seq<u8>>, a: int, b: int) -> int
    decreases b - a + 1,
{
    if a > b {
        0
    } else {
        frames_between(inputs, a, b - 1) + (if inputs(b as i64) is Some {
            1int
        } else {
            0int
        })
    }
}

/// How many bytes of inputs the frames from `a` up to `b` have.
pub open spec fn lengths_between(inputs: spec_fn(i64) -> Option<Seq<u8>>, a: int, b: int) -> int
    decreases b - a + 1,
{
    if a > b {
        0
    } else {
        lengths_between(inputs, a, b - 1) + (match inputs(b as i64) {
            Some(data) => data.len() as int,
            None => 0int,
        })
    }
}

/// The inputs that a crypter holds.
pub open spec fn held_inputs(st: CrypterState) -> spec_fn(i64) -> Option<Seq<u8>> {
    |f: i64|
        if st.pending.contains_key(f) {
            Some(st.pending[f])
        } else {
            None
        }
}

/// The inputs of each frame that count after some calls.
pub open spec fn counting_inputs(calls: Seq<FrameCall>) -> spec_fn(i64) -> Option<Seq<u8>> {
    |f: i64| settled_inputs(calls, f)
}

/// Frames that become final are absorbed in order and whole: every byte of their
/// inputs, and nothing else, and each frame with inputs counts once.
pub proof fn law_final_frames_are_absorbed(st: CrypterState, a: int, b: int)
    requires
        i64::MIN <= a,
        b <= i64::MAX,
    ensures
        range_finalized(st, a, b).0.absorbed == st.absorbed + inputs_between(held_inputs(st), a, b),
        range_finalized(st, a, b).0.frames == st.frames + frames_between(held_inputs(st), a, b),
    decreases b - a + 1,
{
    if a > b {
        assert(st.absorbed + inputs_between(held_inputs(st), a, b) =~= st.absorbed);
    } else {
        law_final_frames_are_absorbed(st, a, b - 1);
        lemma_range_leaves_others(st, a, b - 1, b as i64);
        assert(range_finalized(st, a, b).0.absorbed =~= st.absorbed + inputs_between(
            held_inputs(st),
            a,
            b,
        ));
    }
}

proof fn lemma_between_agree(
    p: spec_fn(i64) -> Option<Seq<u8>>,
    q: spec_fn(i64) -> Option<Seq<u8>>,
    a: int,
    b: int,
)
    requires
        i64::MIN <= a,
        b <= i64::MAX,
        forall|f: i64| a <= f <= b ==> #[trigger] p(f) == q(f),
    ensures
        inputs_between(p, a, b) == inputs_between(q, a, b),
        frames_between(p, a, b) == frames_between(q, a, b),
    decreases b - a + 1,
{
    if a <= b {
        lemma_between_agree(p, q, a, b - 1);
        assert(p(b as i64) == q(b as i64));
    }
}

/// What a game has absorbed: the four bytes of its seed, most significant first, and
/// behind them the whole inputs that count of each final frame, in order of the frames.
/// So the number of bytes is four more than those inputs have together.
pub proof fn law_absorbed_is_seed_and_inputs(x: CrypterState, m: Meta, calls: Seq<FrameCall>)
    requires
        calls.len() > 0,
    ensures
        ({
            let end = frames_handled(game_started(x, m).0, calls).0;
            let inputs = counting_inputs(calls);
            let a = calls[0].finalized as int;
            let b = highest_finalized(calls) as int;
            &&& end.absorbed.len() >= 4
            &&& 16_777_216 * end.absorbed[0] + 65_536 * end.absorbed[1] + 256 * end.absorbed[2]
                + end.absorbed[3] == m.seed
            &&& end.absorbed.skip(4) == inputs_between(inputs, a, b)
            &&& end.absorbed.len() == 4 + lengths_between(inputs, a, b)
            &&& end.frames == frames_between(inputs, a, b)
        }),
{
    let st = game_started(x, m).0;
    let a = calls[0].finalized;
    let b = highest_finalized(calls);
    let inputs = counting_inputs(calls);
    let ideal = CrypterState {
        pending: Map::new(
            |f: i64| a <= f <= b && settled_inputs(calls, f) is Some,
            |f: i64| settled_inputs(calls, f).unwrap(),
        ),
        ..st
    };
    assert(holds_settled(ideal, calls, a as int, b as int));
    lemma_run(st, ideal, calls);
    law_final_frames_are_absorbed(ideal, a as int, b as int);
    assert forall|f: i64| a <= f <= b implies #[trigger] held_inputs(ideal)(f) == inputs(f) by {
        assert(ideal.pending.contains_key(f) == (settled_inputs(calls, f) is Some));
    }
    lemma_between_agree(held_inputs(ideal), inputs, a as int, b as int);
    let end = frames_handled(st, calls).0;
    let seed = text::u32_be(m.seed);
    text::law_u32_be_value(0, 0, 0, 0, m.seed);
    assert(end.absorbed == seed + inputs_between(inputs, a as int, b as int));
    assert(end.absorbed.skip(4) =~= inputs_between(inputs, a as int, b as int));
    lemma_between_len(inputs, a as int, b as int);
}

proof fn lemma_between_len(p: spec_fn(i64) -> Option<Seq<u8>>, a: int, b: int)
    ensures
        inputs_between(p, a, b).len() == lengths_between(p, a, b),
    decreases b - a + 1,
{
    if a <= b {
        lemma_between_len(p, a, b - 1);
    }
}

proof fn lemma_between_differs(
    p: spec_fn(i64) -> Option<Seq<u8>>,
    q: spec_fn(i64) -> Option<Seq<u8>>,
    a: int,
    b: int,
    g: i64,
)
    requires
        i64::MIN <= a <= g <= b <= i64::MAX,
        p(g) != q(g),
        forall|f: i64|
            a <= f <= b ==> (#[trigger] p(f) is Some <==> q(f) is Some) && (p(f) is Some
                ==> p(f).unwrap().len() == q(f).unwrap().len()),
    ensures
        inputs_between(p, a, b) != inputs_between(q, a, b),
    decreases b - a + 1,
{
    let x = inputs_between(p, a, b - 1);
    let y = inputs_between(q, a, b - 1);
    lemma_between_same_len(p, q, a, b - 1);
    let last = b as i64;
    assert(p(last) is Some <==> q(last) is Some);
    if inputs_between(p, a, b) == inputs_between(q, a, b) {
        let whole = inputs_between(p, a, b);
        assert(whole.take(x.len() as int) =~= x);
        assert(inputs_between(q, a, b).take(y.len() as int) =~= y);
        assert(x == y);
        if g == last {
            assert(p(last) is Some);
            assert(whole.skip(x.len() as int) =~= p(last).unwrap());
            assert(inputs_between(q, a, b).skip(y.len() as int) =~= q(last).unwrap());
        } else {
            lemma_between_differs(p, q, a, b - 1, g);
        }
    }
}

proof fn lemma_between_same_len(
    p: spec_fn(i64) -> Option<Seq<u8>>,
    q: spec_fn(i64) -> Option<Seq<u8>>,
    a: int,
    b: int,
)
    requires
        i64::MIN <= a,
        b <= i64::MAX,
        forall|f: i64|
            a <= f <= b ==> (#[trigger] p(f) is Some <==> q(f) is Some) && (p(f) is Some
                ==> p(f).unwrap().len() == q(f).unwrap().len()),
    ensures
        inputs_between(p, a, b).len() == inputs_between(q, a, b).len(),
    decreases b - a + 1,
{
    if a <= b {
        lemma_between_same_len(p, q, a, b - 1);
        assert(p(b as i64) is Some <==> q(b as i64) is Some);
    }
}

/// Every byte of the inputs counts: two runs of games with the same seed whose final
/// frames have inputs of the same lengths, but different ones in some frame, have
/// absorbed different bytes.
pub proof fn law_every_input_byte_counts(
    x: CrypterState,
    m: Meta,
    c: Seq<FrameCall>,
    d: Seq<FrameCall>,
    g: i64,
)
    requires
        c.len() > 0,
        d.len() > 0,
        c[0].finalized == d[0].finalized,
        highest_finalized(c) == highest_finalized(d),
        c[0].finalized <= g <= highest_finalized(c),
        settled_inputs(c, g) != settled_inputs(d, g),
        forall|f: i64|
            c[0].finalized <= f <= highest_finalized(c) ==> (#[trigger] settled_inputs(c, f) is Some
                <==> settled_inputs(d, f) is Some) && (settled_inputs(c, f) is Some
                ==> settled_inputs(c, f).unwrap().len() == settled_inputs(d, f).unwrap().len()),
    ensures
        frames_handled(game_started(x, m).0, c).0.absorbed != frames_handled(
            game_started(x, m).0,
            d,
        ).0.absorbed,
{
    law_absorbed_is_seed_and_inputs(x, m, c);
    law_absorbed_is_seed_and_inputs(x, m, d);
    lemma_between_differs(
        counting_inputs(c),
        counting_inputs(d),
        c[0].finalized as int,
        highest_finalized(c) as int,
        g,
    );
}

/// When keys come and are put to use. As long as keys are on time, a frame with inputs
/// is one more frame, and without inputs none. A key comes exactly when as many frames
/// as the rollover says have been absorbed since the last one; it is the first 32 bytes
/// that SHAKE256 makes of everything absorbed; and its use is due exactly as many frames
/// later as the offset says.
pub proof fn law_key_schedule(st: CrypterState, f: i64)
    requires
        st.rollover >= 1,
        st.offset >= 0,
        st.last_key <= st.frames < st.last_key + st.rollover,
    ensures
        ({
            let (next, out) = frame_finalized(st, f);
            let frames = st.frames + (if st.pending.contains_key(f) {
                1int
            } else {
                0int
            });
            let key = Update::Key { frames, key: crypto::shake256_of(next.absorbed) };
            &&& next.frames == frames
            &&& next.last_key <= next.frames < next.last_key + next.rollover
            &&& next.rollover == st.rollover && next.offset == st.offset
            &&& frames - st.last_key == st.rollover ==> next.last_key == frames
            &&& frames - st.last_key == st.rollover && st.offset > 0 ==> out == seq![key]
                && next.rotate_at == Some(frames + st.offset)
            &&& frames - st.last_key == st.rollover && st.offset == 0 ==> out == seq![
                key,
                Update::Rotate,
            ] && next.rotate_at is None
            &&& frames - st.last_key < st.rollover ==> next.last_key == st.last_key
            &&& frames - st.last_key < st.rollover && st.rotate_at == Some(frames) ==> out == seq![
                Update::Rotate,
            ] && next.rotate_at is None
            &&& frames - st.last_key < st.rollover && st.rotate_at != Some(frames) ==> out
                == Seq::<Update>::empty() && next.rotate_at == st.rotate_at
        }),
{
    let (next, out) = frame_finalized(st, f);
}

/// How many keys some updates hold.
pub open spec fn keys_in(out: Seq<Update>) -> int
    decreases out.len(),
{
    if out.len() == 0 {
        0
    } else {
        keys_in(out.drop_last()) + (if out.last() is Key {
            1int
        } else {
            0int
        })
    }
}

proof fn lemma_keys_split(x: Seq<Update>, y: Seq<Update>)
    ensures
        keys_in(x + y) == keys_in(x) + keys_in(y),
    decreases y.len(),
{
    if y.len() == 0 {
        assert(x + y =~= x);
    } else {
        lemma_keys_split(x, y.drop_last());
        assert((x + y).drop_last() =~= x + y.drop_last());
    }
}

/// Keys come regularly: one for every rollover of frames absorbed, none in between,
/// however frames become final.
pub proof fn law_keys_come_regularly(st: CrypterState, a: int, b: int)
    requires
        st.rollover >= 1,
        st.offset >= 0,
        st.last_key <= st.frames < st.last_key + st.rollover,
    ensures
        ({
            let (next, out) = range_finalized(st, a, b);
            &&& next.rollover == st.rollover && next.offset == st.offset
            &&& next.last_key == st.last_key + keys_in(out) * st.rollover
            &&& next.last_key <= next.frames < next.last_key + next.rollover
        }),
    decreases b - a + 1,
{
    if a > b {
        assert(0 * st.rollover == 0);
    } else {
        law_keys_come_regularly(st, a, b - 1);
        let (mid, out) = range_finalized(st, a, b - 1);
        law_key_schedule(mid, b as i64);
        let last = frame_finalized(mid, b as i64).1;
        lemma_keys_split(out, last);
        reveal_with_fuel(keys_in, 3);
        if last.len() == 2 {
            assert(last.drop_last() =~= seq![last[0]]);
            assert(last.drop_last().drop_last() =~= Seq::empty());
        }
        if last.len() == 1 {
            assert(last.drop_last() =~= Seq::empty());
        }
        let k = keys_in(out);
        assert((k + 1) * st.rollover == k * st.rollover + st.rollover) by (nonlinear_arith);
        assert(0 <= keys_in(last) <= 1);
    }
}

/// A game begins anew: nothing of what was before counts, and the schedule of keys starts
/// with the game.
pub proof fn law_game_begins_anew(x: CrypterState, y: CrypterState, m: Meta)
    requires
        x.rollover == y.rollover,
        x.offset == y.offset,
    ensures
        game_started(x, m) == game_started(y, m),
        game_started(x, m).0.rollover == x.rollover,
        game_started(x, m).0.offset == x.offset,
        game_started(x, m).0.frames == 0,
        game_started(x, m).0.last_key == 0,
        game_started(x, m).0.rotate_at is None,
        game_started(x, m).0.last_finalized is None,
        game_started(x, m).0.meta == Some(m),
        game_started(x, m).1.len() == 1,
        game_started(x, m).1[0] == (Update::Key {
            frames: 0,
            key: crypto::shake256_of(game_started(x, m).0.absorbed),
        }),
{
    assert(game_started(x, m).0 =~= game_started(y, m).0);
    assert(game_started(x, m).1 =~= game_started(y, m).1);
}

/// Without a game nothing is emitted, and nothing is kept.
pub proof fn law_silent_without_game(st: CrypterState, calls: Seq<FrameCall>)
    requires
        st.meta is None,
    ensures
        frames_handled(st, calls) == (st, Seq::<Update>::empty()),
    decreases calls.len(),
{
    if calls.len() > 0 {
        law_silent_without_game(st, calls.drop_last());
    }
}

/// The last final frame never moves back.
pub proof fn law_final_frame_never_moves_back(st: CrypterState, calls: Seq<FrameCall>)
    requires
        st.last_finalized is Some,
    ensures
        frames_handled(st, calls).0.last_finalized matches Some(f) && f
            >= st.last_finalized.unwrap(),
    decreases calls.len(),
{
    if calls.len() > 0 {
        law_final_frame_never_moves_back(st, calls.drop_last());
    }
}

/// A game's first key depends on nothing but the game's seed.
pub proof fn law_first_key_from_seed(x: CrypterState, y: CrypterState, m: Meta, n: Meta)
    requires
        m.seed == n.seed,
    ensures
        game_started(x, m).1 == game_started(y, n).1,
        game_started(x, m).1.len() == 1,
{
}

/// A key is put to use exactly once: a rotation comes when the scheduled number of
/// frames has been absorbed, and nothing is scheduled afterwards until there is
/// another key.
pub proof fn law_rotation_follows_key(st: CrypterState, f: i64)
    ensures
        frame_finalized(st, f).1.len() > 0 && frame_finalized(st, f).1.last() is Rotate ==> {
            let derived = key_derived(frame_absorbed(st, f)).0;
            &&& derived.rotate_at == Some(derived.frames)
            &&& frame_finalized(st, f).0.rotate_at is None
        },
        frame_finalized(st, f).0.rotate_at is Some && frame_finalized(st, f).0.rotate_at
            != st.rotate_at ==> frame_finalized(st, f).1.len() > 0 && frame_finalized(
            st,
            f,
        ).1[0] is Key,
{
}

/// Inputs that were absorbed are held no longer; all others are held as they were.
pub proof fn law_absorbed_inputs_are_dropped(st: CrypterState, a: int, b: int, f: i64)
    requires
        i64::MIN <= a,
        b <= i64::MAX,
    ensures
        ({
            let after = range_finalized(st, a, b).0;
            &&& after.pending.contains_key(f) <==> st.pending.contains_key(f) && !(a <= f <= b)
            &&& after.pending.contains_key(f) ==> after.pending[f] == st.pending[f]
        }),
    decreases b - a + 1,
{
    if a <= b {
        law_absorbed_inputs_are_dropped(st, a, b - 1, f);
        assert(b as i64 == b);
    }
}

/// New values for rollover and offset forget nothing and release nothing: what was absorbed,
/// what is held, and when the last key came and is to be used stay; the next key comes after
/// as many frames from the last one as the new rollover says.
pub proof fn law_new_values_change_the_pace_only(
    st: CrypterState,
    rollover: int,
    offset: int,
    f: i64,
)
    requires
        st.pending.contains_key(f),
    ensures
        ({
            let now = reconfigured(st, rollover, offset);
            &&& now.rollover == rollover && now.offset == offset
            &&& now.absorbed == st.absorbed && now.frames == st.frames && now.pending == st.pending
            &&& now.last_key == st.last_key && now.rotate_at == st.rotate_at
            &&& now.meta == st.meta && now.last_finalized == st.last_finalized
            &&& keys_in(frame_finalized(now, f).1) > 0 <==> st.frames + 1 - st.last_key >= rollover
        }),
{
    reveal_with_fuel(keys_in, 3);
    let now = reconfigured(st, rollover, offset);
    let (derived, key) = key_derived(frame_absorbed(now, f));
    let (rotated, rotation) = key_rotated(derived);
    let out = key + rotation;
    if key.len() > 0 && rotation.len() > 0 {
        assert(out.drop_last() =~= key);
    } else if key.len() > 0 {
        assert(out =~= key);
    } else {
        assert(out =~= rotation);
    }
}

} // verus!
