//! Negotiating the parameters of a connection: a joiner offers, the host accepts
//! or rejects, and both end up with the same parameters.

use vstd::prelude::*;
use vstd::string::*;

use crate::text;

verus! {

/// Version of the protocol. Changes when peers of different versions can no
/// longer work together.
pub const SSP_VERSION: [u8; 3] = [0, 1, 0];

/// Longest handshake message that is read.
pub const MAX_HANDSHAKE_MSG: usize = 512;

/// How long a host waits for a joiner's offer, in seconds.
pub const OFFER_TIMEOUT_SECS: u64 = 6;

/// Name under which peers connect.
pub const SSP_ALPN: &'static str = "ssp";

/// Limits of a parameter and the value preferred between them.
#[derive(Debug, Clone, Copy, PartialEq, Eq, Structural)]
pub struct ParamRange {
    /// Smallest acceptable value.
    pub min: u64,
    /// Value preferred.
    pub preferred: u64,
    /// Largest acceptable value.
    pub max: u64,
}

/// The value of `lo..=hi` that is closest to `v`.
pub open spec fn clamped(v: u64, lo: u64, hi: u64) -> u64 {
    if v < lo {
        lo
    } else if v > hi {
        hi
    } else {
        v
    }
}

/// The smaller of two values.
pub open spec fn lesser(a: u64, b: u64) -> u64 {
    if a <= b {
        a
    } else {
        b
    }
}

/// The larger of two values.
pub open spec fn greater(a: u64, b: u64) -> u64 {
    if a >= b {
        a
    } else {
        b
    }
}

/// What two ranges have in common; the smaller preference decides, as far as the
/// common limits allow it.
pub open spec fn common_range(a: ParamRange, b: ParamRange) -> Option<ParamRange> {
    let lo = greater(a.min, b.min);
    let hi = lesser(a.max, b.max);
    if lo <= hi {
        Some(
            ParamRange {
                min: lo,
                preferred: clamped(lesser(a.preferred, b.preferred), lo, hi),
                max: hi,
            },
        )
    } else {
        None
    }
}

/// The value of `lo..=hi` that is closest to `v`.
fn clamp(v: u64, lo: u64, hi: u64) -> (r: u64)
    ensures
        r == clamped(v, lo, hi),
{
    if v < lo {
        lo
    } else if v > hi {
        hi
    } else {
        v
    }
}

impl ParamRange {
    /// A range; the preference is moved between the limits.
    pub fn new(min: u64, preferred: u64, max: u64) -> (range: ParamRange)
        requires
            min <= max,
        ensures
            range == (ParamRange { min, preferred: clamped(preferred, min, max), max }),
    {
        Self { min, preferred: clamp(preferred, min, max), max }
    }

    /// What two ranges have in common, if anything.
    pub fn intersect(&self, other: &ParamRange) -> (common: Option<ParamRange>)
        ensures
            common == common_range(*self, *other),
    {
        let lo: u64 = if self.min >= other.min {
            self.min
        } else {
            other.min
        };
        let hi: u64 = if self.max <= other.max {
            self.max
        } else {
            other.max
        };
        if lo <= hi {
            let preferred: u64 = if self.preferred <= other.preferred {
                self.preferred
            } else {
                other.preferred
            };
            Some(ParamRange { min: lo, preferred: clamp(preferred, lo, hi), max: hi })
        } else {
            None
        }
    }
}

/// What a peer accepts of a connection.
#[derive(Debug, Clone, Copy, PartialEq, Eq)]
pub struct HandshakeConfig {
    /// Frames between two keys.
    pub rollover: ParamRange,
    /// Frames between a key and its use.
    pub offset: ParamRange,
    /// Oldest Slippi version accepted.
    pub slp_version_min: [u8; 3],
    /// Newest Slippi version accepted.
    pub slp_version_max: [u8; 3],
    /// Oldest protocol version accepted.
    pub ssp_version_min: [u8; 3],
    /// Newest protocol version accepted.
    pub ssp_version_max: [u8; 3],
    /// Whether the peer offers an encrypted session, or else an unencrypted one.
    pub encryption_enabled: bool,
    /// Whether encrypted sessions are accepted.
    pub accept_encrypted: bool,
    /// Whether unencrypted sessions are accepted.
    pub accept_unencrypted: bool,
}

/// What a joiner sends.
#[derive(Debug, Clone, Copy)]
pub struct HandshakeOffer {
    /// What the joiner accepts.
    pub config: HandshakeConfig,
    /// The joiner's Slippi version.
    pub slp_version: [u8; 3],
    /// The joiner's protocol version.
    pub ssp_version: [u8; 3],
}

/// What a host answers to an offer that it accepts.
#[derive(Debug, Clone, Copy)]
pub struct HandshakeAccept {
    /// Frames between two keys.
    pub rollover: ParamRange,
    /// Frames between a key and its use.
    pub offset: ParamRange,
}

/// What a host answers to an offer that it rejects.
#[derive(Debug, Clone)]
pub struct HandshakeReject {
    /// Why.
    pub reason: String,
}

/// A host's answer to an offer.
#[derive(Debug, Clone)]
pub enum HandshakeResponse {
    /// The offer is accepted.
    Accept(HandshakeAccept),
    /// The offer is rejected.
    Reject(HandshakeReject),
}

/// A peer's side of its handshakes.
#[derive(Debug)]
pub struct HandshakeState {
    /// What the peer accepts of connections that it joins.
    pub config: HandshakeConfig,
    /// The peer's Slippi version.
    pub slp_version: [u8; 3],
    /// The peer's protocol version.
    pub ssp_version: [u8; 3],
    /// Range that suits the peer and everyone who joined it. Only ever narrows.
    pub group_rollover: ParamRange,
    /// Range that suits the peer and everyone who joined it. Only ever narrows.
    pub group_offset: ParamRange,
    /// Whether the session is encrypted, once the first peer has decided it.
    pub locked_encryption: Option<bool>,
}

/// Whether a configuration accepts an encrypted session, or an unencrypted one.
pub open spec fn accepts_mode(config: HandshakeConfig, encrypted: bool) -> bool {
    if encrypted {
        config.accept_encrypted
    } else {
        config.accept_unencrypted
    }
}

/// Whether the session is encrypted: as it was decided with the first peer, or, before
/// that, as the peer's own configuration offers it.
pub open spec fn session_mode(hs: HandshakeState) -> bool {
    match hs.locked_encryption {
        Some(encrypted) => encrypted,
        None => hs.config.encryption_enabled,
    }
}

/// What a joiner offers: its configuration, with the mode that its session has.
pub open spec fn offered_config(hs: HandshakeState) -> HandshakeConfig {
    HandshakeConfig { encryption_enabled: session_mode(hs), ..hs.config }
}

/// Complaint about the mode of an offer, if there is one. The mode must be the one that
/// was decided with the first peer, if it was, and both sides must accept it.
pub open spec fn mode_complaint(hs: HandshakeState, theirs: HandshakeConfig) -> Option<Seq<char>> {
    let mode = theirs.encryption_enabled;
    if hs.locked_encryption == Some(!mode) {
        Some("Peer encryption mode differs from the mode of the session"@)
    } else if !accepts_mode(hs.config, mode) {
        Some("Peer encryption mode is not accepted"@)
    } else if !accepts_mode(theirs, mode) {
        Some("Peer does not accept the encryption mode that it offers"@)
    } else {
        None
    }
}

/// The state of a host that has accepted an offer: the ranges of the group are
/// narrowed, and the mode of the session is decided.
pub open spec fn offer_accepted(
    hs: HandshakeState,
    offer: HandshakeOffer,
    rollover: ParamRange,
    offset: ParamRange,
) -> HandshakeState {
    HandshakeState {
        group_rollover: rollover,
        group_offset: offset,
        locked_encryption: Some(offer.config.encryption_enabled),
        ..hs
    }
}

/// Complaint about a version outside a range.
pub open spec fn version_complaint(
    whose: Seq<char>,
    version: [u8; 3],
    range: Seq<char>,
    min: [u8; 3],
    max: [u8; 3],
) -> Seq<char> {
    whose + text::version_text(version) + range + text::version_text(min) + ", "@
        + text::version_text(max) + "]"@
}

/// Complaint about ranges that have nothing in common.
pub open spec fn range_complaint(what: Seq<char>, theirs: ParamRange, ours: ParamRange) -> Seq<
    char,
> {
    what + " range ["@ + text::decimal_text(theirs.min as nat) + ", "@ + text::decimal_text(
        theirs.max as nat,
    ) + "] does not overlap group window ["@ + text::decimal_text(ours.min as nat) + ", "@
        + text::decimal_text(ours.max as nat) + "]"@
}

/// A host's verdict on an offer: the agreed ranges, or why there are none. Each
/// side's versions must suit the other side, the session must be encrypted or not as
/// both accept it, and the ranges must overlap those of the group.
pub open spec fn offer_verdict(hs: HandshakeState, offer: HandshakeOffer) -> Result<
    (ParamRange, ParamRange),
    Seq<char>,
> {
    let theirs = offer.config;
    let ours = hs.config;
    if !text::version_within(hs.ssp_version, theirs.ssp_version_min, theirs.ssp_version_max) {
        Err(
            version_complaint(
                "Your SSP version "@,
                hs.ssp_version,
                " outside peer's accepted range ["@,
                theirs.ssp_version_min,
                theirs.ssp_version_max,
            ),
        )
    } else if !text::version_within(
        offer.ssp_version,
        ours.ssp_version_min,
        ours.ssp_version_max,
    ) {
        Err(
            version_complaint(
                "Peer SSP version "@,
                offer.ssp_version,
                " outside your accepted range ["@,
                ours.ssp_version_min,
                ours.ssp_version_max,
            ),
        )
    } else if !text::version_within(
        offer.slp_version,
        ours.slp_version_min,
        ours.slp_version_max,
    ) {
        Err(
            version_complaint(
                "Peer SLP version "@,
                offer.slp_version,
                " outside your accepted range ["@,
                ours.slp_version_min,
                ours.slp_version_max,
            ),
        )
    } else if !text::version_within(hs.slp_version, theirs.slp_version_min, theirs.slp_version_max) {
        Err(
            version_complaint(
                "Your SLP version "@,
                hs.slp_version,
                " outside peer's accepted range ["@,
                theirs.slp_version_min,
                theirs.slp_version_max,
            ),
        )
    } else if mode_complaint(hs, theirs) is Some {
        Err(mode_complaint(hs, theirs).unwrap())
    } else {
        match (
            common_range(hs.group_rollover, theirs.rollover),
            common_range(hs.group_offset, theirs.offset),
        ) {
            (None, _) => Err(range_complaint("rollover"@, theirs.rollover, hs.group_rollover)),
            (_, None) => Err(range_complaint("offset"@, theirs.offset, hs.group_offset)),
            (Some(rollover), Some(offset)) => Ok((rollover, offset)),
        }
    }
}

/// Writes a complaint about a version outside a range.
fn complain_version(
    whose: &str,
    version: &[u8; 3],
    range: &str,
    min: &[u8; 3],
    max: &[u8; 3],
) -> (complaint: String)
    ensures
        complaint@ == version_complaint(whose@, *version, range@, *min, *max),
{
    let mut complaint = whose.to_owned();
    text::push_version(&mut complaint, version);
    complaint.append(range);
    text::push_version(&mut complaint, min);
    complaint.append(", ");
    text::push_version(&mut complaint, max);
    complaint.append("]");
    complaint
}

/// Writes a complaint about ranges that have nothing in common.
fn complain_range(what: &str, theirs: &ParamRange, ours: &ParamRange) -> (complaint: String)
    ensures
        complaint@ == range_complaint(what@, *theirs, *ours),
{
    let mut complaint = what.to_owned();
    complaint.append(" range [");
    text::push_decimal(&mut complaint, theirs.min);
    complaint.append(", ");
    text::push_decimal(&mut complaint, theirs.max);
    complaint.append("] does not overlap group window [");
    text::push_decimal(&mut complaint, ours.min);
    complaint.append(", ");
    text::push_decimal(&mut complaint, ours.max);
    complaint.append("]");
    complaint
}

/// Tells whether a version lies outside a range.
fn version_outside(version: &[u8; 3], min: &[u8; 3], max: &[u8; 3]) -> (outside: bool)
    ensures
        outside == !text::version_within(*version, *min, *max),
{
    text::is_version_before(version, min) || text::is_version_before(max, version)
}

/// Tells whether a configuration accepts an encrypted session, or an unencrypted one.
fn mode_accepted(config: &HandshakeConfig, encrypted: bool) -> (accepted: bool)
    ensures
        accepted == accepts_mode(*config, encrypted),
{
    if encrypted {
        config.accept_encrypted
    } else {
        config.accept_unencrypted
    }
}

/// What an accepted offer changes about the crypter: the active values, if they
/// are not those that the host's own configuration prefers.
pub open spec fn reconfiguration(config: HandshakeConfig, rollover: ParamRange, offset: ParamRange) -> Option<
    (u64, u64),
> {
    if rollover.preferred != config.rollover.preferred || offset.preferred
        != config.offset.preferred {
        Some((rollover.preferred, offset.preferred))
    } else {
        None
    }
}

/// Whether the active values of an answer lie in the ranges of a configuration.
pub open spec fn accept_valid(config: HandshakeConfig, accept: HandshakeAccept) -> bool {
    &&& config.offset.min <= accept.offset.preferred <= config.offset.max
    &&& config.rollover.min <= accept.rollover.preferred <= config.rollover.max
}

/// Tells whether the active values of an answer lie in the ranges of a
/// configuration.
pub fn accept_is_valid(config: HandshakeConfig, accept: &HandshakeAccept) -> (valid: bool)
    ensures
        valid == accept_valid(config, *accept),
{
    if accept.offset.preferred > config.offset.max || accept.offset.preferred < config.offset.min {
        return false;
    }
    if accept.rollover.preferred > config.rollover.max || accept.rollover.preferred
        < config.rollover.min {
        return false;
    }
    true
}

/// What a joiner makes of an answer: its state afterwards, and a complaint if the
/// answer is of no use. The rollover range is narrowed before the offset range is
/// looked at. An answer that is taken over decides the mode of the session.
pub open spec fn response_applied(
    hs: HandshakeState,
    offer: HandshakeOffer,
    response: HandshakeResponse,
) -> (HandshakeState, Option<Seq<char>>) {
    let config = hs.config;
    let mode = offer.config.encryption_enabled;
    match response {
        HandshakeResponse::Reject(reject) => (hs, Some(reject.reason@)),
        HandshakeResponse::Accept(accept) => if hs.locked_encryption == Some(!mode) {
            (hs, Some("Offered encryption mode differs from the mode of the session"@))
        } else if !accept_valid(config, accept) {
            (hs, Some("Peer returned invalid connection configuration"@))
        } else {
            match common_range(accept.rollover, config.rollover) {
                None => (
                    hs,
                    Some(range_complaint("rollover"@, offer.config.rollover, config.rollover)),
                ),
                Some(rollover) => match common_range(accept.offset, config.offset) {
                    None => (
                        HandshakeState { config: HandshakeConfig { rollover, ..config }, ..hs },
                        Some(range_complaint("offset"@, offer.config.offset, config.offset)),
                    ),
                    Some(offset) => (
                        HandshakeState {
                            config: HandshakeConfig { rollover, offset, ..config },
                            locked_encryption: Some(mode),
                            ..hs
                        },
                        None,
                    ),
                },
            }
        },
    }
}

impl HandshakeState {
    /// The state before any handshake.
    pub fn new(config: HandshakeConfig, slp_version: [u8; 3], ssp_version: [u8; 3]) -> (state:
        HandshakeState)
        ensures
            state == first_state(config, slp_version, ssp_version),
    {
        Self {
            config,
            slp_version,
            ssp_version,
            group_rollover: config.rollover,
            group_offset: config.offset,
            locked_encryption: None,
        }
    }

    /// Whether the session is encrypted, as far as it is known.
    pub fn encryption(&self) -> (encrypted: bool)
        ensures
            encrypted == session_mode(*self),
    {
        match self.locked_encryption {
            Some(encrypted) => encrypted,
            None => self.config.encryption_enabled,
        }
    }

    /// Writes a complaint about the mode of an offer, if there is one.
    fn complain_mode(&self, theirs: &HandshakeConfig) -> (complaint: Option<String>)
        ensures
            mode_complaint(*self, *theirs) == (match complaint {
                Some(c) => Some(c@),
                None => None,
            }),
    {
        let mode = theirs.encryption_enabled;
        let differs = match self.locked_encryption {
            Some(locked) => locked != mode,
            None => false,
        };
        if differs {
            Some("Peer encryption mode differs from the mode of the session".to_owned())
        } else if !mode_accepted(&self.config, mode) {
            Some("Peer encryption mode is not accepted".to_owned())
        } else if !mode_accepted(theirs, mode) {
            Some("Peer does not accept the encryption mode that it offers".to_owned())
        } else {
            None
        }
    }

    /// Evaluates a joiner's offer. An accepted offer narrows the ranges of the group
    /// and decides whether the session is encrypted; a rejected one changes nothing.
    pub fn evaluate_offer(&mut self, offer: HandshakeOffer) -> (verdict: Result<
        HandshakeAccept,
        String,
    >)
        ensures
            match verdict {
                Ok(accept) => {
                    &&& offer_verdict(*old(self), offer) == Ok::<_, Seq<char>>(
                        (accept.rollover, accept.offset),
                    )
                    &&& *final(self) == offer_accepted(
                        *old(self),
                        offer,
                        accept.rollover,
                        accept.offset,
                    )
                },
                Err(reason) => {
                    &&& offer_verdict(*old(self), offer) == Err::<(ParamRange, ParamRange), _>(
                        reason@,
                    )
                    &&& *final(self) == *old(self)
                },
            },
    {
        let theirs = offer.config;
        let ours = self.config;
        if version_outside(&self.ssp_version, &theirs.ssp_version_min, &theirs.ssp_version_max) {
            return Err(
                complain_version(
                    "Your SSP version ",
                    &self.ssp_version,
                    " outside peer's accepted range [",
                    &theirs.ssp_version_min,
                    &theirs.ssp_version_max,
                ),
            );
        }
        if version_outside(&offer.ssp_version, &ours.ssp_version_min, &ours.ssp_version_max) {
            return Err(
                complain_version(
                    "Peer SSP version ",
                    &offer.ssp_version,
                    " outside your accepted range [",
                    &ours.ssp_version_min,
                    &ours.ssp_version_max,
                ),
            );
        }
        if version_outside(&offer.slp_version, &ours.slp_version_min, &ours.slp_version_max) {
            return Err(
                complain_version(
                    "Peer SLP version ",
                    &offer.slp_version,
                    " outside your accepted range [",
                    &ours.slp_version_min,
                    &ours.slp_version_max,
                ),
            );
        }
        if version_outside(&self.slp_version, &theirs.slp_version_min, &theirs.slp_version_max) {
            return Err(
                complain_version(
                    "Your SLP version ",
                    &self.slp_version,
                    " outside peer's accepted range [",
                    &theirs.slp_version_min,
                    &theirs.slp_version_max,
                ),
            );
        }
        match self.complain_mode(&theirs) {
            Some(complaint) => {
                return Err(complaint);
            },
            None => {},
        }
        let rollover = match self.group_rollover.intersect(&theirs.rollover) {
            Some(range) => range,
            None => {
                return Err(complain_range("rollover", &theirs.rollover, &self.group_rollover));
            },
        };
        let offset = match self.group_offset.intersect(&theirs.offset) {
            Some(range) => range,
            None => {
                return Err(complain_range("offset", &theirs.offset, &self.group_offset));
            },
        };
        self.group_rollover = rollover;
        self.group_offset = offset;
        self.locked_encryption = Some(theirs.encryption_enabled);
        Ok(HandshakeAccept { rollover, offset })
    }

    /// Answers a joiner's offer. With an acceptance come the values to reconfigure
    /// the crypter with, if they are not those of the host's configuration.
    pub fn respond(&mut self, offer: HandshakeOffer) -> (answer: (
        HandshakeResponse,
        Option<(u64, u64)>,
    ))
        ensures
            match offer_verdict(*old(self), offer) {
                Ok((rollover, offset)) => {
                    &&& answer.0 == HandshakeResponse::Accept(HandshakeAccept { rollover, offset })
                    &&& answer.1 == reconfiguration(old(self).config, rollover, offset)
                    &&& *final(self) == offer_accepted(*old(self), offer, rollover, offset)
                },
                Err(reason) => {
                    &&& answer.0 matches HandshakeResponse::Reject(r) && r.reason@ == reason
                    &&& answer.1 is None
                    &&& *final(self) == *old(self)
                },
            },
    {
        let old_rollover: u64 = self.config.rollover.preferred;
        let old_offset: u64 = self.config.offset.preferred;
        match self.evaluate_offer(offer) {
            Ok(accept) => {
                let changed = if accept.rollover.preferred != old_rollover
                    || accept.offset.preferred != old_offset {
                    Some((accept.rollover.preferred, accept.offset.preferred))
                } else {
                    None
                };
                (HandshakeResponse::Accept(accept), changed)
            },
            Err(reason) => (HandshakeResponse::Reject(HandshakeReject { reason }), None),
        }
    }

    /// The offer that a joiner with this state makes.
    pub fn make_offer(&self, slp_version: [u8; 3], ssp_version: [u8; 3]) -> (offer: HandshakeOffer)
        ensures
            offer == (HandshakeOffer { config: offered_config(*self), slp_version, ssp_version }),
            slp_version == self.slp_version && ssp_version == self.ssp_version ==> offer
                == offer_of(*self),
    {
        let mut config = self.config;
        config.encryption_enabled = self.encryption();
        HandshakeOffer { config, slp_version, ssp_version }
    }

    /// Takes over a host's answer to `offer`, or says why that is not possible.
    pub fn apply_response(&mut self, offer: &HandshakeOffer, response: HandshakeResponse) -> (done:
        Result<(), String>)
        ensures
            *final(self) == response_applied(*old(self), *offer, response).0,
            match done {
                Ok(_) => response_applied(*old(self), *offer, response).1 is None,
                Err(reason) => response_applied(*old(self), *offer, response).1 == Some(reason@),
            },
    {
        let mode = offer.config.encryption_enabled;
        match response {
            HandshakeResponse::Accept(accept) => {
                let differs = match self.locked_encryption {
                    Some(locked) => locked != mode,
                    None => false,
                };
                if differs {
                    return Err(
                        "Offered encryption mode differs from the mode of the session".to_owned(),
                    );
                }
                if !accept_is_valid(self.config, &accept) {
                    return Err("Peer returned invalid connection configuration".to_owned());
                }
                match accept.rollover.intersect(&self.config.rollover) {
                    Some(range) => {
                        self.config.rollover = range;
                    },
                    None => {
                        return Err(
                            complain_range(
                                "rollover",
                                &offer.config.rollover,
                                &self.config.rollover,
                            ),
                        );
                    },
                }
                match accept.offset.intersect(&self.config.offset) {
                    Some(range) => {
                        self.config.offset = range;
                    },
                    None => {
                        return Err(
                            complain_range("offset", &offer.config.offset, &self.config.offset),
                        );
                    },
                }
                self.locked_encryption = Some(mode);
                Ok(())
            },
            HandshakeResponse::Reject(reject) => Err(reject.reason),
        }
    }
}

// ---------------------------------------------------------------------------
// Laws
// ---------------------------------------------------------------------------
/// Whether a value lies in a range.
pub open spec fn admits(range: ParamRange, v: u64) -> bool {
    range.min <= v <= range.max
}

/// Whether one range lies inside another.
pub open spec fn range_inside(a: ParamRange, b: ParamRange) -> bool {
    b.min <= a.min && a.max <= b.max
}

/// What two ranges have in common does not depend on their order, lies inside
/// both, and prefers a value of its own. There is something in common exactly if
/// some value lies in both.
pub proof fn law_common_range(a: ParamRange, b: ParamRange)
    ensures
        common_range(a, b) == common_range(b, a),
        common_range(a, b) matches Some(c) ==> {
            &&& range_inside(c, a)
            &&& range_inside(c, b)
            &&& c.min <= c.preferred <= c.max
        },
        common_range(a, b) is Some <==> exists|v: u64| #[trigger] admits(a, v) && admits(b, v),
{
    if common_range(a, b) is Some {
        assert(admits(a, greater(a.min, b.min)));
    }
}

/// What ranges have in common with each other does not depend on how they are grouped,
/// and a range whose preference lies between its limits has itself in common with
/// itself.
pub proof fn law_common_range_of_several(a: ParamRange, b: ParamRange, c: ParamRange)
    ensures
        narrowed(narrowed(Some(a), b), c) == (match common_range(b, c) {
            Some(bc) => common_range(a, bc),
            None => None,
        }),
        a.min <= a.preferred <= a.max ==> common_range(a, a) == Some(a),
{
}

/// What is left of a range, if anything, after another one has narrowed it.
pub open spec fn narrowed(range: Option<ParamRange>, by: ParamRange) -> Option<ParamRange> {
    match range {
        Some(r) => common_range(r, by),
        None => None,
    }
}

/// What is left of a range, if anything, after several have narrowed it.
pub open spec fn narrowed_by_all(range: ParamRange, by: Seq<ParamRange>) -> Option<ParamRange> {
    by.fold_left(Some(range), |r: Option<ParamRange>, b: ParamRange| narrowed(r, b))
}

/// The window of a group does not depend on the order in which its peers joined.
pub proof fn law_window_ignores_order(
    range: ParamRange,
    joined: Seq<ParamRange>,
    reordered: Seq<ParamRange>,
)
    requires
        joined.to_multiset() == reordered.to_multiset(),
    ensures
        narrowed_by_all(range, joined) == narrowed_by_all(range, reordered),
{
    let f = |r: Option<ParamRange>, b: ParamRange| narrowed(r, b);
    assert(vstd::seq_lib::commutative_foldl(f));
    vstd::seq_lib::lemma_fold_left_permutation(joined, reordered, f, Some(range));
}

/// Two joiners may come in either order: a host that accepts the one and then the other
/// accepts them the other way round too, and is in the same state afterwards.
pub proof fn law_joiners_in_either_order(
    host: HandshakeState,
    first: HandshakeOffer,
    second: HandshakeOffer,
)
    ensures
        offer_verdict(host, first) matches Ok((r1, o1)) ==> {
            let one = offer_accepted(host, first, r1, o1);
            offer_verdict(one, second) matches Ok((r2, o2)) ==> {
                &&& offer_verdict(host, second) matches Ok((r3, o3)) && {
                    let other = offer_accepted(host, second, r3, o3);
                    &&& offer_verdict(other, first) matches Ok((r4, o4)) && offer_accepted(
                        other,
                        first,
                        r4,
                        o4,
                    ) == offer_accepted(one, second, r2, o2)
                }
            }
        },
{
}

/// The state of a peer before any handshake.
pub open spec fn first_state(
    config: HandshakeConfig,
    slp_version: [u8; 3],
    ssp_version: [u8; 3],
) -> HandshakeState {
    HandshakeState {
        config,
        slp_version,
        ssp_version,
        group_rollover: config.rollover,
        group_offset: config.offset,
        locked_encryption: None,
    }
}

/// The offer that a peer makes.
pub open spec fn offer_of(hs: HandshakeState) -> HandshakeOffer {
    HandshakeOffer {
        config: offered_config(hs),
        slp_version: hs.slp_version,
        ssp_version: hs.ssp_version,
    }
}

/// It does not matter who hosts: of two peers that accept the mode that each of them
/// offers, each accepts the other's offer or neither does, with the same ranges.
pub proof fn law_roles_may_change(x: HandshakeState, y: HandshakeState)
    requires
        x == first_state(x.config, x.slp_version, x.ssp_version),
        y == first_state(y.config, y.slp_version, y.ssp_version),
        accepts_mode(x.config, x.config.encryption_enabled),
        accepts_mode(x.config, y.config.encryption_enabled),
        accepts_mode(y.config, x.config.encryption_enabled),
        accepts_mode(y.config, y.config.encryption_enabled),
    ensures
        offer_verdict(x, offer_of(y)) is Ok <==> offer_verdict(y, offer_of(x)) is Ok,
        offer_verdict(x, offer_of(y)) is Ok ==> offer_verdict(x, offer_of(y)) == offer_verdict(
            y,
            offer_of(x),
        ),
{
}

/// The ranges of a group only ever narrow.
pub proof fn law_group_narrows(hs: HandshakeState, offer: HandshakeOffer)
    ensures
        offer_verdict(hs, offer) matches Ok((rollover, offset)) ==> {
            &&& range_inside(rollover, hs.group_rollover)
            &&& range_inside(offset, hs.group_offset)
            &&& range_inside(rollover, offer.config.rollover)
            &&& range_inside(offset, offer.config.offset)
        },
{
}

/// Both sides agree: when a host accepts a joiner's offer, the joiner takes the
/// answer over without complaint and ends up with the very ranges, and so the very
/// active values, of the host's group, and with the same mode of the session.
pub proof fn law_handshake_agreement(
    host: HandshakeState,
    joiner: HandshakeState,
    offer: HandshakeOffer,
)
    requires
        offer.config == offered_config(joiner),
    ensures
        offer_verdict(host, offer) matches Ok((rollover, offset)) ==> {
            let answer = HandshakeResponse::Accept(HandshakeAccept { rollover, offset });
            let joined = response_applied(joiner, offer, answer).0;
            let hosting = offer_accepted(host, offer, rollover, offset);
            &&& response_applied(joiner, offer, answer).1 is None
            &&& joined.config == (HandshakeConfig { rollover, offset, ..joiner.config })
            &&& joined.config.rollover == hosting.group_rollover
            &&& joined.config.offset == hosting.group_offset
            &&& joined.locked_encryption is Some
            &&& joined.locked_encryption == hosting.locked_encryption
        },
{
}

/// A joiner that is told no keeps its state and reports the host's reason.
pub proof fn law_rejection_reported(hs: HandshakeState, offer: HandshakeOffer, reject: HandshakeReject)
    ensures
        response_applied(hs, offer, HandshakeResponse::Reject(reject)) == (
            hs,
            Some(reject.reason@),
        ),
{
}

/// The first peer decides whether a session is encrypted, and later peers must match:
/// once decided, no handshake changes it, on either side, and no offer of the other
/// mode is accepted.
pub proof fn law_mode_is_locked(
    hs: HandshakeState,
    offer: HandshakeOffer,
    response: HandshakeResponse,
    encrypted: bool,
)
    requires
        hs.locked_encryption == Some(encrypted),
    ensures
        offer.config.encryption_enabled != encrypted ==> offer_verdict(hs, offer) is Err,
        offer_verdict(hs, offer) matches Ok((rollover, offset)) ==> offer_accepted(
            hs,
            offer,
            rollover,
            offset,
        ).locked_encryption == Some(encrypted),
        response_applied(hs, offer, response).0.locked_encryption == Some(encrypted),
        offered_config(hs).encryption_enabled == encrypted,
{
}

/// A host accepts an offer only in a mode that both sides accept. So a peer that
/// accepts encrypted sessions only never takes part in an unencrypted one, and the
/// other way round.
pub proof fn law_mode_must_suit(host: HandshakeState, offer: HandshakeOffer)
    ensures
        offer_verdict(host, offer) is Ok ==> accepts_mode(
            host.config,
            offer.config.encryption_enabled,
        ) && accepts_mode(offer.config, offer.config.encryption_enabled),
        mode_complaint(host, offer.config) is Some <==> {
            ||| host.locked_encryption == Some(!offer.config.encryption_enabled)
            ||| !accepts_mode(host.config, offer.config.encryption_enabled)
            ||| !accepts_mode(offer.config, offer.config.encryption_enabled)
        },
{
}

/// Peers of versions that do not suit each other never connect, whichever of them
/// joins.
pub proof fn law_versions_must_suit(host: HandshakeState, offer: HandshakeOffer)
    ensures
        offer_verdict(host, offer) is Ok ==> {
            &&& text::version_within(
                host.ssp_version,
                offer.config.ssp_version_min,
                offer.config.ssp_version_max,
            )
            &&& text::version_within(
                offer.ssp_version,
                host.config.ssp_version_min,
                host.config.ssp_version_max,
            )
            &&& text::version_within(
                offer.slp_version,
                host.config.slp_version_min,
                host.config.slp_version_max,
            )
            &&& text::version_within(
                host.slp_version,
                offer.config.slp_version_min,
                offer.config.slp_version_max,
            )
        },
{
}

/// What two ranges have in common is exactly the values that lie in both. Of these the
/// active one is the smaller of the two preferences where it lies in both, and otherwise
/// the common value closest to it.
pub proof fn law_common_range_is_exact(a: ParamRange, b: ParamRange, v: u64)
    ensures
        common_range(a, b) is None ==> !(admits(a, v) && admits(b, v)),
        common_range(a, b) matches Some(c) ==> {
            let wish = if a.preferred < b.preferred {
                a.preferred
            } else {
                b.preferred
            };
            &&& admits(c, v) <==> a.min <= v <= a.max && b.min <= v <= b.max
            &&& a.min <= c.preferred <= a.max && b.min <= c.preferred <= b.max
            &&& a.min <= wish <= a.max && b.min <= wish <= b.max ==> c.preferred == wish
            &&& a.min <= v <= a.max && b.min <= v <= b.max ==> (if wish <= v {
                v - wish >= (if wish <= c.preferred {
                    c.preferred - wish
                } else {
                    wish - c.preferred
                })
            } else {
                wish - v >= (if wish <= c.preferred {
                    c.preferred - wish
                } else {
                    wish - c.preferred
                })
            })
        },
{
}

/// The range that is built of limits and a preference keeps the limits, and prefers the
/// value between them that is closest to the preference.
pub proof fn law_clamped(v: u64, lo: u64, hi: u64, w: u64)
    requires
        lo <= hi,
    ensures
        lo <= clamped(v, lo, hi) <= hi,
        lo <= v <= hi ==> clamped(v, lo, hi) == v,
        lo <= w <= hi && v <= w ==> v <= clamped(v, lo, hi) <= w,
        lo <= w <= hi && v >= w ==> v >= clamped(v, lo, hi) >= w,
{
}

/// When an offer is accepted: exactly if each side's versions lie in the other side's
/// ranges, the mode suits, and some rollover and some offset lie in both the group's and
/// the joiner's ranges. The agreed ranges are then what those have in common.
pub proof fn law_accepted_exactly_if(host: HandshakeState, offer: HandshakeOffer)
    ensures
        offer_verdict(host, offer) is Ok <==> {
            let theirs = offer.config;
            let ours = host.config;
            let mode = theirs.encryption_enabled;
            &&& text::version_number(theirs.ssp_version_min) <= text::version_number(
                host.ssp_version,
            ) <= text::version_number(theirs.ssp_version_max)
            &&& text::version_number(ours.ssp_version_min) <= text::version_number(
                offer.ssp_version,
            ) <= text::version_number(ours.ssp_version_max)
            &&& text::version_number(theirs.slp_version_min) <= text::version_number(
                host.slp_version,
            ) <= text::version_number(theirs.slp_version_max)
            &&& text::version_number(ours.slp_version_min) <= text::version_number(
                offer.slp_version,
            ) <= text::version_number(ours.slp_version_max)
            &&& host.locked_encryption is None || host.locked_encryption == Some(mode)
            &&& if mode {
                ours.accept_encrypted && theirs.accept_encrypted
            } else {
                ours.accept_unencrypted && theirs.accept_unencrypted
            }
            &&& exists|v: u64| #[trigger]
                admits(host.group_rollover, v) && admits(theirs.rollover, v)
            &&& exists|v: u64| #[trigger] admits(host.group_offset, v) && admits(theirs.offset, v)
        },
        offer_verdict(host, offer) matches Ok((rollover, offset)) ==> {
            &&& common_range(host.group_rollover, offer.config.rollover) == Some(rollover)
            &&& common_range(host.group_offset, offer.config.offset) == Some(offset)
        },
{
    let theirs = offer.config;
    let ours = host.config;
    text::law_version_order(host.ssp_version, theirs.ssp_version_min, theirs.ssp_version_max);
    text::law_version_order(offer.ssp_version, ours.ssp_version_min, ours.ssp_version_max);
    text::law_version_order(host.slp_version, theirs.slp_version_min, theirs.slp_version_max);
    text::law_version_order(offer.slp_version, ours.slp_version_min, ours.slp_version_max);
    law_common_range(host.group_rollover, theirs.rollover);
    law_common_range(host.group_offset, theirs.offset);
    lemma_locked(host.locked_encryption, theirs.encryption_enabled);
}

proof fn lemma_locked(locked: Option<bool>, mode: bool)
    ensures
        locked == Some(!mode) <==> !(locked is None || locked == Some(mode)),
{
    if locked is Some {
        assert(locked == Some(locked.unwrap()));
        assert(locked.unwrap() == mode || locked.unwrap() == !mode);
    }
}

/// Why an offer is rejected: the first of these that holds is the reason that is given.
pub proof fn law_first_fault_is_reported(host: HandshakeState, offer: HandshakeOffer)
    ensures
        ({
            let theirs = offer.config;
            let ours = host.config;
            let within = |v: [u8; 3], min: [u8; 3], max: [u8; 3]|
                text::version_number(min) <= text::version_number(v) <= text::version_number(max);
            let said = |text: Seq<char>|
                offer_verdict(host, offer) == Err::<(ParamRange, ParamRange), Seq<char>>(text);
            let versions = |min: [u8; 3], max: [u8; 3]|
                text::version_text(min) + ", "@ + text::version_text(max) + "]"@;
            let own_ssp = within(host.ssp_version, theirs.ssp_version_min, theirs.ssp_version_max);
            let their_ssp = within(offer.ssp_version, ours.ssp_version_min, ours.ssp_version_max);
            let their_slp = within(offer.slp_version, ours.slp_version_min, ours.slp_version_max);
            let own_slp = within(host.slp_version, theirs.slp_version_min, theirs.slp_version_max);
            let suits = mode_complaint(host, theirs) is None;
            let rollover = common_range(host.group_rollover, theirs.rollover);
            let offset = common_range(host.group_offset, theirs.offset);
            &&& !own_ssp ==> said(
                "Your SSP version "@ + text::version_text(host.ssp_version)
                    + " outside peer's accepted range ["@ + versions(
                    theirs.ssp_version_min,
                    theirs.ssp_version_max,
                ),
            )
            &&& own_ssp && !their_ssp ==> said(
                "Peer SSP version "@ + text::version_text(offer.ssp_version)
                    + " outside your accepted range ["@ + versions(
                    ours.ssp_version_min,
                    ours.ssp_version_max,
                ),
            )
            &&& own_ssp && their_ssp && !their_slp ==> said(
                "Peer SLP version "@ + text::version_text(offer.slp_version)
                    + " outside your accepted range ["@ + versions(
                    ours.slp_version_min,
                    ours.slp_version_max,
                ),
            )
            &&& own_ssp && their_ssp && their_slp && !own_slp ==> said(
                "Your SLP version "@ + text::version_text(host.slp_version)
                    + " outside peer's accepted range ["@ + versions(
                    theirs.slp_version_min,
                    theirs.slp_version_max,
                ),
            )
            &&& own_ssp && their_ssp && their_slp && own_slp && !suits ==> said(
                mode_complaint(host, theirs).unwrap(),
            )
            &&& own_ssp && their_ssp && their_slp && own_slp && suits && rollover is None ==> said(
                range_complaint("rollover"@, theirs.rollover, host.group_rollover),
            )
            &&& own_ssp && their_ssp && their_slp && own_slp && suits && rollover is Some && offset
                is None ==> said(range_complaint("offset"@, theirs.offset, host.group_offset))
        }),
{
    let theirs = offer.config;
    let ours = host.config;
    text::law_version_order(host.ssp_version, theirs.ssp_version_min, theirs.ssp_version_max);
    text::law_version_order(offer.ssp_version, ours.ssp_version_min, ours.ssp_version_max);
    text::law_version_order(host.slp_version, theirs.slp_version_min, theirs.slp_version_max);
    text::law_version_order(offer.slp_version, ours.slp_version_min, ours.slp_version_max);
    lemma_version_complaint(
        "Your SSP version "@,
        host.ssp_version,
        " outside peer's accepted range ["@,
        theirs.ssp_version_min,
        theirs.ssp_version_max,
    );
    lemma_version_complaint(
        "Peer SSP version "@,
        offer.ssp_version,
        " outside your accepted range ["@,
        ours.ssp_version_min,
        ours.ssp_version_max,
    );
    lemma_version_complaint(
        "Peer SLP version "@,
        offer.slp_version,
        " outside your accepted range ["@,
        ours.slp_version_min,
        ours.slp_version_max,
    );
    lemma_version_complaint(
        "Your SLP version "@,
        host.slp_version,
        " outside peer's accepted range ["@,
        theirs.slp_version_min,
        theirs.slp_version_max,
    );
}

proof fn lemma_version_complaint(
    whose: Seq<char>,
    version: [u8; 3],
    range: Seq<char>,
    min: [u8; 3],
    max: [u8; 3],
)
    ensures
        version_complaint(whose, version, range, min, max) == whose + text::version_text(version)
            + range + (text::version_text(min) + ", "@ + text::version_text(max) + "]"@),
{
    assert(version_complaint(whose, version, range, min, max) =~= whose + text::version_text(
        version,
    ) + range + (text::version_text(min) + ", "@ + text::version_text(max) + "]"@));
}

/// A complaint about ranges names what they are of, the limits of the joiner's range and
/// those of the group's, in decimal.
pub proof fn law_range_complaint(what: Seq<char>, theirs: ParamRange, ours: ParamRange)
    ensures
        range_complaint(what, theirs, ours) == what + (" range ["@ + text::decimal_text(
            theirs.min as nat,
        )) + (", "@ + text::decimal_text(theirs.max as nat)) + ("] does not overlap group window ["@
            + text::decimal_text(ours.min as nat)) + (", "@ + text::decimal_text(ours.max as nat))
            + "]"@,
{
    assert(range_complaint(what, theirs, ours) =~= what + (" range ["@ + text::decimal_text(
        theirs.min as nat,
    )) + (", "@ + text::decimal_text(theirs.max as nat)) + ("] does not overlap group window ["@
        + text::decimal_text(ours.min as nat)) + (", "@ + text::decimal_text(ours.max as nat))
        + "]"@);
}

/// Rollover and offset of a crypter after it was told to take over new ones, or not.
pub open spec fn crypter_after(before: (u64, u64), told: Option<(u64, u64)>) -> (u64, u64) {
    match told {
        Some(new) => new,
        None => before,
    }
}

/// After an accepted offer both sides' keys follow the agreed values: a host's crypter that
/// ran with the values that the host's configuration prefers, and is told what the answer
/// comes with, runs with the active rollover and offset of the acceptance; and these are
/// the ones that the joiner prefers once it has taken the answer over.
pub proof fn law_agreed_values_are_in_force(
    host: HandshakeState,
    joiner: HandshakeState,
    offer: HandshakeOffer,
)
    requires
        offer.config == offered_config(joiner),
    ensures
        offer_verdict(host, offer) matches Ok((rollover, offset)) ==> {
            let running = (host.config.rollover.preferred, host.config.offset.preferred);
            let told = reconfiguration(host.config, rollover, offset);
            let answer = HandshakeResponse::Accept(HandshakeAccept { rollover, offset });
            let joined = response_applied(joiner, offer, answer).0;
            &&& crypter_after(running, told) == (rollover.preferred, offset.preferred)
            &&& joined.config.rollover.preferred == crypter_after(running, told).0
            &&& joined.config.offset.preferred == crypter_after(running, told).1
        },
        offer_verdict(host, offer) matches Ok((rollover, offset)) ==> (reconfiguration(
            host.config,
            rollover,
            offset,
        ) is None <==> rollover.preferred == host.config.rollover.preferred && offset.preferred
            == host.config.offset.preferred),
{
}

/// What a joiner does with an answer that accepts its offer. An answer whose active values
/// the joiner does not admit, or whose ranges have nothing in common with the joiner's, is
/// refused and decides no mode; any other is taken over, and narrows the joiner's ranges to
/// what they have in common with the answer's.
pub proof fn law_answers(
    hs: HandshakeState,
    offer: HandshakeOffer,
    accept: HandshakeAccept,
)
    ensures
        ({
            let (next, complaint) = response_applied(hs, offer, HandshakeResponse::Accept(accept));
            let rollover = common_range(accept.rollover, hs.config.rollover);
            let offset = common_range(accept.offset, hs.config.offset);
            &&& complaint is None <==> {
                &&& hs.locked_encryption is None || hs.locked_encryption == Some(
                    offer.config.encryption_enabled,
                )
                &&& admits(hs.config.rollover, accept.rollover.preferred)
                &&& admits(hs.config.offset, accept.offset.preferred)
                &&& rollover is Some
                &&& offset is Some
            }
            &&& complaint is None ==> {
                &&& Some(next.config.rollover) == rollover
                &&& Some(next.config.offset) == offset
                &&& next.locked_encryption == Some(offer.config.encryption_enabled)
            }
            &&& complaint is Some ==> next.locked_encryption == hs.locked_encryption
                && next.config.offset == hs.config.offset
            &&& next.group_rollover == hs.group_rollover
            &&& next.group_offset == hs.group_offset
            &&& next.slp_version == hs.slp_version
            &&& next.ssp_version == hs.ssp_version
            &&& next.config.slp_version_min == hs.config.slp_version_min
            &&& next.config.slp_version_max == hs.config.slp_version_max
            &&& next.config.ssp_version_min == hs.config.ssp_version_min
            &&& next.config.ssp_version_max == hs.config.ssp_version_max
            &&& next.config.encryption_enabled == hs.config.encryption_enabled
            &&& next.config.accept_encrypted == hs.config.accept_encrypted
            &&& next.config.accept_unencrypted == hs.config.accept_unencrypted
        }),
        accept_valid(hs.config, accept) <==> admits(hs.config.rollover, accept.rollover.preferred)
            && admits(hs.config.offset, accept.offset.preferred),
{
    lemma_locked(hs.locked_encryption, offer.config.encryption_enabled);
}

/// An accepted offer changes the group's window and decides the mode, and nothing else; a
/// peer that has not decided offers what its configuration says.
pub proof fn law_hosts_keep_their_configuration(
    hs: HandshakeState,
    offer: HandshakeOffer,
    rollover: ParamRange,
    offset: ParamRange,
)
    ensures
        ({
            let next = offer_accepted(hs, offer, rollover, offset);
            &&& next.config == hs.config
            &&& next.slp_version == hs.slp_version
            &&& next.ssp_version == hs.ssp_version
            &&& next.group_rollover == rollover
            &&& next.group_offset == offset
            &&& next.locked_encryption == Some(offer.config.encryption_enabled)
        }),
        hs.locked_encryption is None ==> offered_config(hs) == hs.config,
        offered_config(hs).rollover == hs.config.rollover,
        offered_config(hs).offset == hs.config.offset,
        offered_config(hs).accept_encrypted == hs.config.accept_encrypted,
        offered_config(hs).accept_unencrypted == hs.config.accept_unencrypted,
{
}

/// What is said of a mode that does not suit: first whether it differs from the one that was
/// decided, then whether the own side refuses it, then whether the other side offers what it
/// refuses itself. A mode that suits in all of these is not complained about.
pub proof fn law_mode_complaints(hs: HandshakeState, theirs: HandshakeConfig)
    ensures
        ({
            let mode = theirs.encryption_enabled;
            let differs = hs.locked_encryption is Some && hs.locked_encryption != Some(mode);
            let refused = if mode {
                !hs.config.accept_encrypted
            } else {
                !hs.config.accept_unencrypted
            };
            let refuses = if mode {
                !theirs.accept_encrypted
            } else {
                !theirs.accept_unencrypted
            };
            &&& differs ==> mode_complaint(hs, theirs) == Some(
                "Peer encryption mode differs from the mode of the session"@,
            )
            &&& !differs && refused ==> mode_complaint(hs, theirs) == Some(
                "Peer encryption mode is not accepted"@,
            )
            &&& !differs && !refused && refuses ==> mode_complaint(hs, theirs) == Some(
                "Peer does not accept the encryption mode that it offers"@,
            )
            &&& !differs && !refused && !refuses ==> mode_complaint(hs, theirs) is None
        }),
{
    lemma_locked(hs.locked_encryption, theirs.encryption_enabled);
}

/// What a joiner says of an answer that is of no use: a rejection's own reason; or the first
/// fault of an acceptance, the mode, the active values, the rollover or the offset.
pub proof fn law_refused_answers(
    hs: HandshakeState,
    offer: HandshakeOffer,
    accept: HandshakeAccept,
    reject: HandshakeReject,
)
    ensures
        response_applied(hs, offer, HandshakeResponse::Reject(reject)) == (
            hs,
            Some(reject.reason@),
        ),
        ({
            let complaint = response_applied(hs, offer, HandshakeResponse::Accept(accept)).1;
            let mode = offer.config.encryption_enabled;
            let suits = hs.locked_encryption is None || hs.locked_encryption == Some(mode);
            let admitted = admits(hs.config.rollover, accept.rollover.preferred) && admits(
                hs.config.offset,
                accept.offset.preferred,
            );
            &&& !suits ==> complaint == Some(
                "Offered encryption mode differs from the mode of the session"@,
            )
            &&& suits && !admitted ==> complaint == Some(
                "Peer returned invalid connection configuration"@,
            )
            &&& suits && admitted && common_range(accept.rollover, hs.config.rollover) is None
                ==> complaint == Some(
                range_complaint("rollover"@, offer.config.rollover, hs.config.rollover),
            )
            &&& suits && admitted && common_range(accept.rollover, hs.config.rollover) is Some
                && common_range(accept.offset, hs.config.offset) is None ==> complaint == Some(
                range_complaint("offset"@, offer.config.offset, hs.config.offset),
            )
        }),
{
    lemma_locked(hs.locked_encryption, offer.config.encryption_enabled);
}

/// A session is encrypted as it was decided with the first peer; before that, a peer offers
/// what its configuration says, for its own versions, and its ranges are the group's.
pub proof fn law_before_and_after_the_first_peer(
    config: HandshakeConfig,
    slp_version: [u8; 3],
    ssp_version: [u8; 3],
    hs: HandshakeState,
)
    ensures
        ({
            let first = first_state(config, slp_version, ssp_version);
            &&& session_mode(first) == config.encryption_enabled
            &&& first.group_rollover == config.rollover
            &&& first.group_offset == config.offset
            &&& first.locked_encryption is None
            &&& offer_of(first) == (HandshakeOffer { config, slp_version, ssp_version })
        }),
        hs.locked_encryption matches Some(mode) ==> session_mode(hs) == mode && offer_of(
            hs,
        ).config.encryption_enabled == mode,
{
}

/// The host's crypter follows the handshake: one that runs with the values that the host's
/// configuration prefers runs, once it was reconfigured as an accepted offer says, or left
/// alone where it says nothing, with the agreed values, and has forgotten nothing.
pub proof fn law_crypter_follows_handshake(
    host: HandshakeState,
    offer: HandshakeOffer,
    st: crate::crypter::CrypterState,
)
    requires
        st.rollover == host.config.rollover.preferred,
        st.offset == host.config.offset.preferred,
    ensures
        offer_verdict(host, offer) matches Ok((rollover, offset)) ==> {
            let after = match reconfiguration(host.config, rollover, offset) {
                Some((r, o)) => crate::crypter::reconfigured(st, r as int, o as int),
                None => st,
            };
            &&& after.rollover == rollover.preferred
            &&& after.offset == offset.preferred
            &&& after.absorbed == st.absorbed && after.frames == st.frames
            &&& after.pending == st.pending && after.last_key == st.last_key
        },
{
}

} // verus!
