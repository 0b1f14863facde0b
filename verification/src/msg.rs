//! Messages exchanged between the peers of a session: their binary form, their
//! signatures, and the payload that is handed to the application.

use vstd::bytes::*;
use vstd::prelude::*;

use crate::crypto::{self, EndpointId};
use crate::encoding;

verus! {

/// An incoming message of a peer, as the application receives it.
#[derive(Debug, Clone)]
pub struct Msg {
    /// The sender.
    pub from: EndpointId,
    /// When the message arrived, in nanoseconds since the Unix epoch.
    pub recvtime: u128,
    /// The application's bytes.
    pub data: Vec<u8>,
}

/// Mathematical value of a [`Msg`].
pub struct Received {
    /// The sender.
    pub from: Seq<u8>,
    /// When the message arrived, in nanoseconds since the Unix epoch.
    pub recvtime: u128,
    /// The application's bytes.
    pub data: Seq<u8>,
}

impl View for Msg {
    type V = Received;

    open spec fn view(&self) -> Received {
        Received { from: self.from@, recvtime: self.recvtime, data: self.data@ }
    }
}

impl Msg {
    /// A message that arrived at `recvtime`.
    pub fn new(data: Vec<u8>, from: EndpointId, recvtime: u128) -> (msg: Msg)
        ensures
            msg == (Msg { from, recvtime, data }),
    {
        Self { from, recvtime, data }
    }
}

/// The plaintext of a [`SLPMsgData::Data`] message.
#[derive(Debug, Clone)]
pub struct MsgPayload {
    /// The sender.
    pub from: EndpointId,
    /// The application's bytes.
    pub data: Vec<u8>,
}

/// What some payload bytes hold: the sender, whose identity must be valid, and
/// the application's bytes.
pub open spec fn payload_parsed(s: Seq<u8>) -> Option<(Seq<u8>, Seq<u8>)> {
    match encoding::unbin_payload(s) {
        Some((from, data)) => if crypto::valid_endpoint_id(from) {
            Some((from, data))
        } else {
            None
        },
        None => None,
    }
}

impl MsgPayload {
    /// The payload's binary form.
    pub fn to_vec(&self) -> (bytes: Vec<u8>)
        ensures
            bytes@ == encoding::bin_payload(self.from@, self.data@),
    {
        encoding::serialize_payload(&self.from, &self.data)
    }

    /// Reads a payload from its binary form; bytes behind it are ignored.
    pub fn from_bytes(bytes: &[u8]) -> (payload: Result<MsgPayload, MsgError>)
        ensures
            match payload {
                Ok(p) => payload_parsed(bytes@) == Some((p.from@, p.data@)),
                Err(_) => payload_parsed(bytes@) is None,
            },
    {
        match encoding::deserialize_payload(bytes) {
            Some((from, data)) => {
                if crypto::endpoint_id_is_valid(&from) {
                    Ok(MsgPayload { from, data })
                } else {
                    Err(MsgError::Malformed)
                }
            },
            None => Err(MsgError::Malformed),
        }
    }
}

/// Why bytes are no message.
#[derive(Debug, Clone, Copy, PartialEq, Eq, Structural)]
pub enum MsgError {
    /// The bytes do not have the layout of a message.
    Malformed,
}

/// The body of a message.
#[derive(Debug, Clone)]
pub enum SLPMsgData {
    /// Application data, encrypted where the session is.
    Data { data: Vec<u8>, nonce: [u8; 12] },
    /// A fragment of a message that is too long for one packet.
    Chunk { from: EndpointId, id: u64, index: u16, total: u16, payload: Vec<u8> },
    /// The sender has started a game.
    NewGame { from: EndpointId, newseed: [u8; 32] },
}

/// Mathematical value of a message body.
pub enum MsgBody {
    /// Application data.
    Data { data: Seq<u8>, nonce: Seq<u8> },
    /// A fragment of a longer message.
    Chunk { from: Seq<u8>, id: u64, index: u16, total: u16, payload: Seq<u8> },
    /// The sender has started a game.
    NewGame { from: Seq<u8>, newseed: Seq<u8> },
}

impl View for SLPMsgData {
    type V = MsgBody;

    open spec fn view(&self) -> MsgBody {
        match self {
            SLPMsgData::Data { data, nonce } => MsgBody::Data { data: data@, nonce: nonce@ },
            SLPMsgData::Chunk { from, id, index, total, payload } => MsgBody::Chunk {
                from: from@,
                id: *id,
                index: *index,
                total: *total,
                payload: payload@,
            },
            SLPMsgData::NewGame { from, newseed } => MsgBody::NewGame {
                from: from@,
                newseed: newseed@,
            },
        }
    }
}

/// The signed bytes of a message body: a tag, then the fields.
pub open spec fn body_bytes(body: MsgBody) -> Seq<u8> {
    match body {
        MsgBody::Data { data, nonce } => encoding::bin_data(0, data, nonce),
        MsgBody::Chunk { from, id, index, total, payload } => encoding::bin_chunk(
            1,
            from,
            id,
            index,
            total,
            payload,
        ),
        MsgBody::NewGame { from, newseed } => encoding::bin_pair(2, from, newseed),
    }
}

impl SLPMsgData {
    /// The bytes that a signature covers.
    pub(crate) fn to_vec(&self) -> (bytes: Vec<u8>)
        ensures
            bytes@ == body_bytes(self@),
    {
        match self {
            SLPMsgData::Data { data, nonce } => encoding::serialize_data(0, data, nonce),
            SLPMsgData::Chunk { from, id, index, total, payload } => encoding::serialize_chunk(
                1,
                from,
                *id,
                *index,
                *total,
                payload,
            ),
            SLPMsgData::NewGame { from, newseed } => encoding::serialize_pair(2, from, newseed),
        }
    }
}

/// A signed message.
#[derive(Debug)]
pub struct SLPMsg {
    /// What the message says.
    pub body: SLPMsgData,
    /// The sender's signature over the body's bytes.
    pub signature: Vec<u8>,
}

/// Mathematical value of a signed message.
pub struct SignedMsg {
    /// What the message says.
    pub body: MsgBody,
    /// The signature bytes.
    pub signature: Seq<u8>,
}

impl View for SLPMsg {
    type V = SignedMsg;

    open spec fn view(&self) -> SignedMsg {
        SignedMsg { body: self.body@, signature: self.signature@ }
    }
}

/// The binary form of a signed message.
pub open spec fn msg_bytes(m: SignedMsg) -> Seq<u8> {
    body_bytes(m.body) + encoding::bin_bytes(m.signature)
}

/// The message at the front of some bytes. The sender that a fragment or a
/// game announcement names must be a valid identity.
pub open spec fn msg_parsed(s: Seq<u8>) -> Option<SignedMsg> {
    match encoding::take_u32(s) {
        Some((0, _)) => match encoding::unbin_data(s) {
            Some((_, data, nonce, signature)) => Some(
                SignedMsg { body: MsgBody::Data { data, nonce }, signature },
            ),
            None => None,
        },
        Some((1, _)) => match encoding::unbin_chunk(s) {
            Some((_, from, id, index, total, payload, signature)) => if crypto::valid_endpoint_id(
                from,
            ) {
                Some(
                    SignedMsg {
                        body: MsgBody::Chunk { from, id, index, total, payload },
                        signature,
                    },
                )
            } else {
                None
            },
            None => None,
        },
        Some((2, _)) => match encoding::unbin_pair(s) {
            Some((_, from, newseed, signature)) => if crypto::valid_endpoint_id(from) {
                Some(SignedMsg { body: MsgBody::NewGame { from, newseed }, signature })
            } else {
                None
            },
            None => None,
        },
        _ => None,
    }
}

/// Whether a message carries a signature that the given identity accepts.
pub open spec fn msg_verifies(m: SignedMsg, from: Seq<u8>) -> bool {
    m.signature.len() == 64 && crypto::signature_accepted(from, body_bytes(m.body), m.signature)
}

/// The message that a secret key's holder makes of a body.
pub open spec fn msg_signed(body: MsgBody, secret: Seq<u8>) -> SignedMsg {
    SignedMsg { body, signature: crypto::signature_of(secret, body_bytes(body)) }
}

impl SLPMsg {
    /// Reads a message from its binary form; bytes behind it are ignored.
    pub fn from_bytes(bytes: &[u8]) -> (msg: Result<SLPMsg, MsgError>)
        ensures
            match msg {
                Ok(m) => msg_parsed(bytes@) == Some(m@),
                Err(_) => msg_parsed(bytes@) is None,
            },
    {
        match encoding::deserialize_tag(bytes) {
            Some(0) => match encoding::deserialize_data(bytes) {
                Some((_, data, nonce, signature)) => {
                    Ok(SLPMsg { body: SLPMsgData::Data { data, nonce }, signature })
                },
                None => Err(MsgError::Malformed),
            },
            Some(1) => match encoding::deserialize_chunk(bytes) {
                Some((_, from, id, index, total, payload, signature)) => {
                    if crypto::endpoint_id_is_valid(&from) {
                        Ok(
                            SLPMsg {
                                body: SLPMsgData::Chunk { from, id, index, total, payload },
                                signature,
                            },
                        )
                    } else {
                        Err(MsgError::Malformed)
                    }
                },
                None => Err(MsgError::Malformed),
            },
            Some(2) => match encoding::deserialize_pair(bytes) {
                Some((_, from, newseed, signature)) => {
                    if crypto::endpoint_id_is_valid(&from) {
                        Ok(SLPMsg { body: SLPMsgData::NewGame { from, newseed }, signature })
                    } else {
                        Err(MsgError::Malformed)
                    }
                },
                None => Err(MsgError::Malformed),
            },
            _ => Err(MsgError::Malformed),
        }
    }

    /// Signs a body. The signature verifies under the signer's identity.
    pub fn new_signed(body: SLPMsgData, secret_key: &[u8; 32]) -> (msg: SLPMsg)
        ensures
            msg.body == body,
            msg@ == msg_signed(body@, secret_key@),
            msg_verifies(msg@, crypto::public_key_of(secret_key@)),
    {
        let bytes = body.to_vec();
        let signature = crypto::sign(secret_key, bytes.as_slice());
        let mut copied: Vec<u8> = Vec::new();
        copied.extend_from_slice(&signature);
        assert(copied@ =~= signature@);
        Self { body, signature: copied }
    }

    /// Whether the signature is one that `from` made of this body.
    pub fn verify(&self, from: &EndpointId) -> (accepted: bool)
        ensures
            accepted == msg_verifies(self@, from@),
    {
        if self.signature.len() != 64 {
            return false;
        }
        let mut signature: [u8; 64] = [0u8; 64];
        let mut i: usize = 0;
        while i < 64
            invariant
                i <= 64,
                self.signature@.len() == 64,
                signature@.len() == 64,
                forall|j: int| 0 <= j < i ==> signature@[j] == self.signature@[j],
            decreases 64 - i,
        {
            signature[i] = self.signature[i];
            i += 1;
        }
        assert(signature@ =~= self.signature@);
        let bytes = self.body.to_vec();
        crypto::verify_signature(from, bytes.as_slice(), &signature)
    }

    /// The message's binary form.
    pub fn to_vec(&self) -> (bytes: Vec<u8>)
        ensures
            bytes@ == msg_bytes(self@),
    {
        let mut bytes = self.body.to_vec();
        let mut signature = encoding::serialize_bytes(&self.signature);
        bytes.append(&mut signature);
        bytes
    }
}

/// Whether a message value is one that a [`SLPMsg`] can have: the fixed-width
/// fields have their width, lengths fit in 64 bits, and a named sender is a
/// valid identity.
pub open spec fn msg_wf(m: SignedMsg) -> bool {
    &&& m.signature.len() <= u64::MAX
    &&& match m.body {
        MsgBody::Data { data, nonce } => data.len() <= u64::MAX && nonce.len() == 12,
        MsgBody::Chunk { from, payload, .. } => {
            &&& from.len() == 32
            &&& crypto::valid_endpoint_id(from)
            &&& payload.len() <= u64::MAX
        },
        MsgBody::NewGame { from, newseed } => {
            &&& from.len() == 32
            &&& newseed.len() == 32
            &&& crypto::valid_endpoint_id(from)
        },
    }
}

proof fn lemma_take_u32(x: u32, rest: Seq<u8>)
    ensures
        encoding::take_u32(spec_u32_to_le_bytes(x) + rest) == Some((x, rest)),
{
    lemma_auto_spec_u32_to_from_le_bytes();
    let s = spec_u32_to_le_bytes(x);
    assert((s + rest).take(4) =~= s);
    assert((s + rest).skip(4) =~= rest);
}

proof fn lemma_take_u64(x: u64, rest: Seq<u8>)
    ensures
        encoding::take_u64(spec_u64_to_le_bytes(x) + rest) == Some((x, rest)),
{
    lemma_auto_spec_u64_to_from_le_bytes();
    let s = spec_u64_to_le_bytes(x);
    assert((s + rest).take(8) =~= s);
    assert((s + rest).skip(8) =~= rest);
}

proof fn lemma_take_u16(x: u16, rest: Seq<u8>)
    ensures
        encoding::take_u16(spec_u16_to_le_bytes(x) + rest) == Some((x, rest)),
{
    lemma_auto_spec_u16_to_from_le_bytes();
    let s = spec_u16_to_le_bytes(x);
    assert((s + rest).take(2) =~= s);
    assert((s + rest).skip(2) =~= rest);
}

proof fn lemma_take_fixed(s: Seq<u8>, rest: Seq<u8>)
    ensures
        encoding::take_fixed(s + rest, s.len() as int) == Some((s, rest)),
{
    assert((s + rest).take(s.len() as int) =~= s);
    assert((s + rest).skip(s.len() as int) =~= rest);
}

proof fn lemma_take_bytes(s: Seq<u8>, rest: Seq<u8>)
    requires
        s.len() <= u64::MAX,
    ensures
        encoding::take_bytes(encoding::bin_bytes(s) + rest) == Some((s, rest)),
{
    assert(encoding::bin_bytes(s) + rest =~= spec_u64_to_le_bytes(s.len() as u64) + (s + rest));
    lemma_take_u64(s.len() as u64, s + rest);
    lemma_take_fixed(s, rest);
}

/// Reading a message's binary form gives the message back, whatever bytes
/// follow it.
pub proof fn law_msg_roundtrip(m: SignedMsg, rest: Seq<u8>)
    requires
        msg_wf(m),
    ensures
        msg_parsed(msg_bytes(m) + rest) == Some(m),
{
    let sig = encoding::bin_bytes(m.signature);
    let whole = msg_bytes(m) + rest;
    lemma_take_bytes(m.signature, rest);
    match m.body {
        MsgBody::Data { data, nonce } => {
            let r1 = encoding::bin_bytes(data) + (nonce + (sig + rest));
            assert(whole =~= spec_u32_to_le_bytes(0) + r1);
            lemma_take_u32(0, r1);
            lemma_take_bytes(data, nonce + (sig + rest));
            lemma_take_fixed(nonce, sig + rest);
        },
        MsgBody::Chunk { from, id, index, total, payload } => {
            let r6 = sig + rest;
            let r5 = encoding::bin_bytes(payload) + r6;
            let r4 = spec_u16_to_le_bytes(total) + r5;
            let r3 = spec_u16_to_le_bytes(index) + r4;
            let r2 = spec_u64_to_le_bytes(id) + r3;
            let r1 = from + r2;
            assert(whole =~= spec_u32_to_le_bytes(1) + r1);
            lemma_take_u32(1, r1);
            lemma_take_fixed(from, r2);
            lemma_take_u64(id, r3);
            lemma_take_u16(index, r4);
            lemma_take_u16(total, r5);
            lemma_take_bytes(payload, r6);
        },
        MsgBody::NewGame { from, newseed } => {
            let r2 = newseed + (sig + rest);
            let r1 = from + r2;
            assert(whole =~= spec_u32_to_le_bytes(2) + r1);
            lemma_take_u32(2, r1);
            lemma_take_fixed(from, r2);
            lemma_take_fixed(newseed, sig + rest);
        },
    }
}

/// Reading a payload's binary form gives the sender and the bytes back.
pub proof fn law_payload_roundtrip(from: Seq<u8>, data: Seq<u8>, rest: Seq<u8>)
    requires
        from.len() == 32,
        crypto::valid_endpoint_id(from),
        data.len() <= u64::MAX,
    ensures
        payload_parsed(encoding::bin_payload(from, data) + rest) == Some((from, data)),
{
    let r = encoding::bin_bytes(data) + rest;
    assert(encoding::bin_payload(from, data) + rest =~= from + r);
    lemma_take_fixed(from, r);
    lemma_take_bytes(data, rest);
}

/// The length of a fragment's binary form is that of its payload and a fixed
/// overhead, when its signature has the usual length.
pub proof fn law_chunk_length(m: SignedMsg)
    requires
        m.body is Chunk,
        m.body->Chunk_from.len() == 32,
        m.signature.len() == 64,
    ensures
        msg_bytes(m).len() == m.body->Chunk_payload.len() + 128,
{
    lemma_auto_spec_u16_to_from_le_bytes();
    lemma_auto_spec_u32_to_from_le_bytes();
    lemma_auto_spec_u64_to_from_le_bytes();
}

/// The layout of a message body: four bytes for the kind, then the fields, numbers with the
/// least significant byte first, and bytes of any number behind their length in eight
/// bytes. Application data is of kind 0, a fragment of kind 1, and the announcement of a
/// game of kind 2.
pub proof fn law_body_layout(body: MsgBody)
    ensures
        body matches MsgBody::Data { data, nonce } ==> body_bytes(body) == spec_u32_to_le_bytes(0)
            + spec_u64_to_le_bytes(data.len() as u64) + data + nonce,
        body matches MsgBody::Chunk { from, id, index, total, payload } ==> body_bytes(body)
            == spec_u32_to_le_bytes(1) + from + spec_u64_to_le_bytes(id) + spec_u16_to_le_bytes(
            index,
        ) + spec_u16_to_le_bytes(total) + spec_u64_to_le_bytes(payload.len() as u64) + payload,
        body matches MsgBody::NewGame { from, newseed } ==> body_bytes(body)
            == spec_u32_to_le_bytes(2) + from + newseed,
{
    match body {
        MsgBody::Data { data, nonce } => {
            assert(body_bytes(body) =~= spec_u32_to_le_bytes(0) + spec_u64_to_le_bytes(
                data.len() as u64,
            ) + data + nonce);
        },
        MsgBody::Chunk { from, id, index, total, payload } => {
            assert(body_bytes(body) =~= spec_u32_to_le_bytes(1) + from + spec_u64_to_le_bytes(id)
                + spec_u16_to_le_bytes(index) + spec_u16_to_le_bytes(total) + spec_u64_to_le_bytes(
                payload.len() as u64,
            ) + payload);
        },
        MsgBody::NewGame { from, newseed } => {
            assert(body_bytes(body) =~= spec_u32_to_le_bytes(2) + from + newseed);
        },
    }
}

/// A signature counts exactly if it has 64 bytes and the identity accepts it for all the
/// bytes of the body.
pub proof fn law_signature_covers_body(m: SignedMsg, from: Seq<u8>, secret: Seq<u8>)
    ensures
        msg_verifies(m, from) <==> m.signature.len() == 64 && crypto::signature_accepted(
            from,
            body_bytes(m.body),
            m.signature,
        ),
        msg_signed(m.body, secret).body == m.body,
        msg_signed(m.body, secret).signature == crypto::signature_of(secret, body_bytes(m.body)),
{
}

proof fn lemma_taken_u32(s: Seq<u8>)
    requires
        s.len() >= 4,
    ensures
        encoding::take_u32(s) matches Some((x, rest)) && s == spec_u32_to_le_bytes(x) + rest,
{
    lemma_auto_spec_u32_to_from_le_bytes();
    assert(s =~= s.take(4) + s.skip(4));
}

proof fn lemma_taken_u64(s: Seq<u8>)
    requires
        s.len() >= 8,
    ensures
        encoding::take_u64(s) matches Some((x, rest)) && s == spec_u64_to_le_bytes(x) + rest,
{
    lemma_auto_spec_u64_to_from_le_bytes();
    assert(s =~= s.take(8) + s.skip(8));
}

proof fn lemma_taken_u16(s: Seq<u8>)
    requires
        s.len() >= 2,
    ensures
        encoding::take_u16(s) matches Some((x, rest)) && s == spec_u16_to_le_bytes(x) + rest,
{
    lemma_auto_spec_u16_to_from_le_bytes();
    assert(s =~= s.take(2) + s.skip(2));
}

proof fn lemma_taken_fixed(s: Seq<u8>, n: int)
    requires
        0 <= n <= s.len(),
    ensures
        encoding::take_fixed(s, n) matches Some((x, rest)) && x.len() == n && s == x + rest,
{
    assert(s =~= s.take(n) + s.skip(n));
}

proof fn lemma_taken_bytes(s: Seq<u8>)
    requires
        encoding::take_bytes(s) is Some,
    ensures
        encoding::take_bytes(s) matches Some((x, rest)) && x.len() <= u64::MAX && s
            == encoding::bin_bytes(x) + rest,
{
    lemma_taken_u64(s);
    let (n, tail) = encoding::take_u64(s).unwrap();
    lemma_taken_fixed(tail, n as int);
    let (x, rest) = encoding::take_bytes(s).unwrap();
    assert(s =~= encoding::bin_bytes(x) + rest);
}

proof fn lemma_read_data(s: Seq<u8>, m: SignedMsg) -> (rest: Seq<u8>)
    requires
        msg_parsed(s) == Some(m),
        m.body is Data,
    ensures
        msg_wf(m),
        s == msg_bytes(m) + rest,
{
    lemma_taken_u32(s);
    let r0 = encoding::take_u32(s).unwrap().1;
    lemma_taken_bytes(r0);
    let r1 = encoding::take_bytes(r0).unwrap().1;
    lemma_taken_fixed(r1, 12);
    let r2 = encoding::take_fixed(r1, 12).unwrap().1;
    lemma_taken_bytes(r2);
    let r3 = encoding::take_bytes(r2).unwrap().1;
    assert(s =~= msg_bytes(m) + r3);
    r3
}

proof fn lemma_read_chunk(s: Seq<u8>, m: SignedMsg) -> (rest: Seq<u8>)
    requires
        msg_parsed(s) == Some(m),
        m.body is Chunk,
    ensures
        msg_wf(m),
        s == msg_bytes(m) + rest,
{
    lemma_taken_u32(s);
    let (tag, r0) = encoding::take_u32(s).unwrap();
    assert(tag == 1);
    lemma_taken_fixed(r0, 32);
    let (from, r1) = encoding::take_fixed(r0, 32).unwrap();
    lemma_taken_u64(r1);
    let (id, r2) = encoding::take_u64(r1).unwrap();
    lemma_taken_u16(r2);
    let (index, r3) = encoding::take_u16(r2).unwrap();
    lemma_taken_u16(r3);
    let (total, r4) = encoding::take_u16(r3).unwrap();
    lemma_taken_bytes(r4);
    let (payload, r5) = encoding::take_bytes(r4).unwrap();
    lemma_taken_bytes(r5);
    let (signature, r6) = encoding::take_bytes(r5).unwrap();
    assert(m.signature == signature);
    assert(m.body == MsgBody::Chunk { from, id, index, total, payload });
    let sig = encoding::bin_bytes(signature);
    let load = encoding::bin_bytes(payload);
    let a = spec_u32_to_le_bytes(1);
    let b = spec_u64_to_le_bytes(id);
    let c = spec_u16_to_le_bytes(index);
    let d = spec_u16_to_le_bytes(total);
    lemma_regrouped(seq![a, from, b, c, d, load, sig], r6);
    assert(body_bytes(m.body) =~= a + from + b + c + d + load);
    assert(s =~= msg_bytes(m) + r6);
    r6
}

/// Seven parts and a rest, grouped from the right and from the left.
proof fn lemma_regrouped(p: Seq<Seq<u8>>, rest: Seq<u8>)
    requires
        p.len() == 7,
    ensures
        p[0] + (p[1] + (p[2] + (p[3] + (p[4] + (p[5] + (p[6] + rest)))))) == p[0] + p[1] + p[2]
            + p[3] + p[4] + p[5] + p[6] + rest,
{
    let x = p[4] + (p[5] + (p[6] + rest));
    assert(x =~= p[4] + p[5] + p[6] + rest);
    let y = p[0] + p[1] + p[2] + p[3];
    assert(p[0] + (p[1] + (p[2] + (p[3] + x))) =~= y + x);
    assert(y + (p[4] + p[5] + p[6] + rest) =~= y + p[4] + p[5] + p[6] + rest);
}

proof fn lemma_read_new_game(s: Seq<u8>, m: SignedMsg) -> (rest: Seq<u8>)
    requires
        msg_parsed(s) == Some(m),
        m.body is NewGame,
    ensures
        msg_wf(m),
        s == msg_bytes(m) + rest,
{
    lemma_taken_u32(s);
    let r0 = encoding::take_u32(s).unwrap().1;
    lemma_taken_fixed(r0, 32);
    let r1 = encoding::take_fixed(r0, 32).unwrap().1;
    lemma_taken_fixed(r1, 32);
    let r2 = encoding::take_fixed(r1, 32).unwrap().1;
    lemma_taken_bytes(r2);
    let r3 = encoding::take_bytes(r2).unwrap().1;
    assert(s =~= msg_bytes(m) + r3);
    r3
}

/// What is read as a message is its binary form: the bytes begin with it, and a sender that
/// it names is a valid identity. So nothing else is taken for a message.
pub proof fn law_only_messages_are_read(s: Seq<u8>, m: SignedMsg)
    requires
        msg_parsed(s) == Some(m),
    ensures
        msg_wf(m),
        msg_bytes(m).len() <= s.len(),
        s.subrange(0, msg_bytes(m).len() as int) == msg_bytes(m),
{
    let rest = match m.body {
        MsgBody::Data { .. } => lemma_read_data(s, m),
        MsgBody::Chunk { .. } => lemma_read_chunk(s, m),
        MsgBody::NewGame { .. } => lemma_read_new_game(s, m),
    };
    assert(s == msg_bytes(m) + rest);
    assert(s.subrange(0, msg_bytes(m).len() as int) =~= msg_bytes(m));
}

/// What is read as an application's payload is its binary form: the bytes begin with a
/// valid identity, the length of the application's bytes and these bytes.
pub proof fn law_only_payloads_are_read(s: Seq<u8>, from: Seq<u8>, data: Seq<u8>)
    requires
        payload_parsed(s) == Some((from, data)),
    ensures
        from.len() == 32,
        crypto::valid_endpoint_id(from),
        s.len() >= 40 + data.len(),
        s.subrange(0, (40 + data.len()) as int) == from + spec_u64_to_le_bytes(data.len() as u64)
            + data,
{
    lemma_auto_spec_u64_to_from_le_bytes();
    lemma_taken_fixed(s, 32);
    let r1 = encoding::take_fixed(s, 32).unwrap().1;
    lemma_taken_bytes(r1);
    let r2 = encoding::take_bytes(r1).unwrap().1;
    assert(s =~= from + spec_u64_to_le_bytes(data.len() as u64) + data + r2);
    assert(s.subrange(0, (40 + data.len()) as int) =~= from + spec_u64_to_le_bytes(data.len() as u64)
        + data);
}

} // verus!
