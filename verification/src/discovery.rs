//! Finding peers: what is asked of the bootstrap server and the distributed hash
//! table, what is made of the answers, and how the peers found are dialled.

use vstd::prelude::*;
use vstd::string::*;

use crate::crypto::{self, EndpointId};
use crate::encoding;
use crate::game::DiscoveryMode;
use crate::server::{self, BootstrapResponse};
use crate::text;

verus! {

/// Seconds between two requests to the bootstrap server.
pub const BOOTSTRAP_REFRESH_SECS: u64 = 15;

/// Seconds between two rounds of the distributed hash table.
pub const DHT_REFRESH_SECS: u64 = 10;

/// How many minutes back records of the distributed hash table are looked at.
pub const DHT_SCAN_MINUTES: u64 = 8;

// ---------------------------------------------------------------------------
// Topics
// ---------------------------------------------------------------------------
/// The text that names a game: its seed as eight hexadecimal digits.
pub open spec fn seed_text(seed: u32) -> Seq<char> {
    encoding::hex_text(text::u32_be(seed))
}

/// The text that names a game: its seed as eight hexadecimal digits.
pub fn seed_topic(seed: u32) -> (topic: String)
    ensures
        topic@ == seed_text(seed),
        topic@.len() == 8,
{
    encoding::hex_encode(&text::u32_to_be(seed))
}

/// The hash under which a game is announced.
pub open spec fn topic_hash(topic: Seq<char>) -> Seq<u8> {
    crypto::blake3_keyed_hash_of(
        crypto::blake3_hash_of(vstd::utf8::encode_utf8("ssp-topic"@)),
        vstd::utf8::encode_utf8(topic),
    )
}

/// The hash under which a game is announced.
pub fn get_hashed_seed(seed: &str) -> (hash: [u8; 32])
    ensures
        hash@ == topic_hash(seed@),
{
    let key = crypto::blake3_hash("ssp-topic".as_bytes());
    crypto::blake3_keyed_hash(&key, seed.as_bytes())
}

/// Games with different seeds have different names.
pub proof fn law_seed_text_injective(a: u32, b: u32)
    requires
        seed_text(a) == seed_text(b),
    ensures
        a == b,
{
    encoding::law_hex_roundtrip(text::u32_be(a));
    encoding::law_hex_roundtrip(text::u32_be(b));
    text::law_u32_be_roundtrip(a);
    text::law_u32_be_roundtrip(b);
}

// ---------------------------------------------------------------------------
// Addresses
// ---------------------------------------------------------------------------
/// Where a peer can be reached.
#[derive(Debug)]
pub struct PeerAddr {
    /// The peer's identity.
    pub id: EndpointId,
    /// The address as it was announced, in binary form.
    pub wire: Option<Vec<u8>>,
    /// Whether the announced address says how to reach the peer.
    pub known: bool,
    /// Relay server to reach the peer through.
    pub relay: Option<String>,
}

/// Mathematical value of a [`PeerAddr`].
#[verifier::ext_equal]
pub struct Addr {
    /// The peer's identity.
    pub id: Seq<u8>,
    /// The address as it was announced.
    pub wire: Option<Seq<u8>>,
    /// Whether the announced address says how to reach the peer.
    pub known: bool,
    /// Relay server to reach the peer through.
    pub relay: Option<Seq<char>>,
}

impl View for PeerAddr {
    type V = Addr;

    open spec fn view(&self) -> Addr {
        Addr {
            id: self.id@,
            wire: crypto::bytes_of(self.wire),
            known: self.known,
            relay: encoding::text_of(self.relay),
        }
    }
}

/// Values of some addresses.
pub open spec fn addrs_view(v: Seq<PeerAddr>) -> Seq<Addr> {
    Seq::new(v.len(), |i: int| v[i]@)
}

/// The address of a peer of which only the identity is known.
pub open spec fn bare_addr(id: Seq<u8>) -> Addr {
    Addr { id, wire: None, known: false, relay: None }
}

/// Whether an address does not say how to reach the peer.
pub open spec fn addr_empty(addr: Addr) -> bool {
    !addr.known && addr.relay is None
}

/// The address with a relay server where it does not say how to reach the peer.
pub open spec fn with_fallback(addr: Addr, relay: Option<Seq<char>>) -> Addr {
    if addr_empty(addr) && relay is Some {
        Addr { relay, ..addr }
    } else {
        addr
    }
}

impl Clone for PeerAddr {
    fn clone(&self) -> (copy: PeerAddr)
        ensures
            copy@ == self@,
    {
        PeerAddr {
            id: self.id,
            wire: match &self.wire {
                Some(wire) => Some(copy_bytes(wire)),
                None => None,
            },
            known: self.known,
            relay: match &self.relay {
                Some(relay) => Some(relay.clone()),
                None => None,
            },
        }
    }
}

/// Copies bytes.
fn copy_bytes(bytes: &Vec<u8>) -> (copy: Vec<u8>)
    ensures
        copy@ == bytes@,
{
    let mut copy: Vec<u8> = Vec::new();
    copy.extend_from_slice(bytes.as_slice());
    assert(copy@ =~= bytes@);
    copy
}

impl PeerAddr {
    /// The address of a peer of which only the identity is known.
    pub fn new(id: EndpointId) -> (addr: PeerAddr)
        ensures
            addr@ == bare_addr(id@),
    {
        PeerAddr { id, wire: None, known: false, relay: None }
    }

    /// The address through a relay server.
    pub fn with_relay_url(self, relay: String) -> (addr: PeerAddr)
        ensures
            addr@ == (Addr { relay: Some(relay@), ..self@ }),
    {
        PeerAddr { id: self.id, wire: self.wire, known: self.known, relay: Some(relay) }
    }

    /// Whether the address does not say how to reach the peer.
    pub fn is_empty(&self) -> (empty: bool)
        ensures
            empty == addr_empty(self@),
    {
        !self.known && self.relay.is_none()
    }

    /// The address with a relay server where it does not say how to reach the
    /// peer.
    pub fn or_relay(self, relay: &Option<String>) -> (addr: PeerAddr)
        ensures
            addr@ == with_fallback(self@, encoding::text_of(*relay)),
    {
        if self.is_empty() {
            match relay {
                Some(url) => self.with_relay_url(url.clone()),
                None => self,
            }
        } else {
            self
        }
    }
}

/// The identity that decoded bytes make up, or why they do not, in words.
pub open spec fn node_id_decoded(decoded: Result<Seq<u8>, Seq<char>>) -> Result<
    Seq<u8>,
    Seq<char>,
> {
    match decoded {
        Ok(bytes) => if bytes.len() == 32 {
            Ok(bytes)
        } else {
            Err("Invalid node ID length"@)
        },
        Err(e) => Err("Base64 decode failed: "@ + e),
    }
}

/// The bytes that an identity's text stands for, or why it is none, in words.
pub open spec fn node_id_of(encoded: Seq<char>) -> Result<Seq<u8>, Seq<char>> {
    node_id_decoded(encoding::base64_url_decoded(encoded))
}

/// View of an identity, or of an error in words.
pub open spec fn node_id_view(id: Result<EndpointId, String>) -> Result<Seq<u8>, Seq<char>> {
    match id {
        Ok(bytes) => Ok(bytes@),
        Err(e) => Err(e@),
    }
}

/// Makes an array of as many bytes as one has.
fn to_array(data: &Vec<u8>) -> (array: Option<[u8; 32]>)
    ensures
        match array {
            Some(bytes) => data@.len() == 32 && bytes@ == data@,
            None => data@.len() != 32,
        },
{
    if data.len() != 32 {
        return None;
    }
    let mut array: [u8; 32] = [0u8; 32];
    let mut i: usize = 0;
    while i < 32
        invariant
            i <= 32,
            data@.len() == 32,
            forall|j: int| 0 <= j < i ==> array@[j] == data@[j],
        decreases 32 - i,
    {
        array[i] = data[i];
        i += 1;
    }
    assert(array@ =~= data@);
    Some(array)
}

/// Makes an identity of decoded bytes, or says why that is not possible.
pub fn node_id_from_decoded(decoded: Result<Vec<u8>, String>) -> (id: Result<EndpointId, String>)
    ensures
        node_id_view(id) == node_id_decoded(encoding::decoded_view(decoded)),
{
    match decoded {
        Ok(data) => match to_array(&data) {
            Some(id) => Ok(id),
            None => Err("Invalid node ID length".to_owned()),
        },
        Err(e) => {
            let mut text = "Base64 decode failed: ".to_owned();
            text.append(e.as_str());
            Err(text)
        },
    }
}

/// The bytes that an identity's text stands for, or why it is none.
pub fn decode_nodeid_response(encoded: &str) -> (id: Result<EndpointId, String>)
    ensures
        node_id_view(id) == node_id_of(encoded@),
{
    node_id_from_decoded(encoding::base64_url_decode(encoded))
}

/// An address in binary form as text.
pub fn encode_endpoint_addr(wire: &Option<Vec<u8>>) -> (encoded: Option<String>)
    ensures
        match encoded {
            Some(t) => {
                &&& wire matches Some(w) && t@ == encoding::base64_url_text(w@)
                    && encoding::base64_url_bytes(t@) == Some(w@) && t@.len() == (4 * w@.len() + 2)
                    / 3
                &&& forall|i: int| 0 <= i < t@.len() ==> encoding::is_url_safe_char(#[trigger] t@[i])
            },
            None => wire is None,
        },
{
    match wire {
        Some(w) => Some(encoding::base64_url_encode(w.as_slice())),
        None => None,
    }
}

/// The address that a text stands for, if any.
pub open spec fn addr_of(encoded: Seq<char>) -> Option<Addr> {
    match encoding::base64_url_bytes(encoded) {
        Some(wire) => match encoding::endpoint_addr_of(wire) {
            Some((id, empty)) => Some(
                Addr { id, wire: Some(wire), known: !empty, relay: None },
            ),
            None => None,
        },
        None => None,
    }
}

/// View of an optional address.
pub open spec fn opt_addr(addr: Option<PeerAddr>) -> Option<Addr> {
    match addr {
        Some(a) => Some(a@),
        None => None,
    }
}

/// The address that a text stands for, if any.
pub fn decode_endpoint_addr(encoded: &str) -> (addr: Option<PeerAddr>)
    ensures
        opt_addr(addr) == addr_of(encoded@),
        addr matches Some(a) ==> crypto::valid_endpoint_id(a.id@),
{
    match encoding::base64_url_decode(encoded) {
        Ok(wire) => match encoding::deserialize_endpoint_addr(wire.as_slice()) {
            Some((id, empty)) => Some(
                PeerAddr { id, wire: Some(wire), known: !empty, relay: None },
            ),
            None => None,
        },
        Err(_) => None,
    }
}

// ---------------------------------------------------------------------------
// The bootstrap server
// ---------------------------------------------------------------------------
/// The URL with which a peer announces itself for a game.
pub open spec fn announce_text(
    bootstrap_url: Seq<char>,
    topic: Seq<char>,
    id: Seq<u8>,
    session: Option<Seq<u8>>,
    wire: Option<Seq<u8>>,
) -> Seq<char> {
    let plain = bootstrap_url + "/games/"@ + encoding::hex_text(topic_hash(topic)) + "?id="@
        + encoding::base64_url_text(id);
    let with_session = match session {
        Some(hash) => plain + "&session="@ + encoding::hex_text(hash),
        None => plain,
    };
    match wire {
        Some(w) => with_session + "&addr="@ + encoding::base64_url_text(w),
        None => with_session,
    }
}

/// View of an optional hash.
pub open spec fn opt_hash(hash: Option<[u8; 32]>) -> Option<Seq<u8>> {
    match hash {
        Some(h) => Some(h@),
        None => None,
    }
}

/// What a peer announces itself with, as the server reads it from the URL.
pub struct Announcement {
    /// The game's hash.
    pub game: String,
    /// The peer's identity.
    pub id: String,
    /// The session, if there is one.
    pub session: Option<String>,
    /// The peer's address, if there is one.
    pub addr: Option<String>,
}

/// Longest binary address that a bootstrap server takes.
pub const MAX_WIRE_LEN: usize = 6144;

/// The parts of an announcement. A bootstrap server takes them, unless the address
/// is empty or too long, and other peers read the identity and the address from
/// them again.
pub fn announcement(
    topic: &str,
    id: &EndpointId,
    session: &Option<[u8; 32]>,
    wire: &Option<Vec<u8>>,
) -> (parts: Announcement)
    ensures
        parts.game@ == encoding::hex_text(topic_hash(topic@)),
        parts.id@ == encoding::base64_url_text(id@),
        encoding::text_of(parts.session) == (match opt_hash(*session) {
            Some(hash) => Some(encoding::hex_text(hash)),
            None => None,
        }),
        encoding::text_of(parts.addr) == (match crypto::bytes_of(*wire) {
            Some(w) => Some(encoding::base64_url_text(w)),
            None => None,
        }),
        (crypto::bytes_of(*wire) matches Some(w) ==> 0 < w.len() <= MAX_WIRE_LEN)
            ==> server::well_formed(
            parts.game@,
            parts.id@,
            encoding::text_of(parts.session),
            encoding::text_of(parts.addr),
        ),
        node_id_of(parts.id@) == Ok::<Seq<u8>, Seq<char>>(id@),
        parts.addr matches Some(a) ==> encoding::base64_url_bytes(a@) == crypto::bytes_of(*wire),
{
    let hash = get_hashed_seed(topic);
    proof {
        lemma_hash_text(hash@);
    }
    let session_text = match session {
        Some(s) => {
            proof {
                lemma_hash_text(s@);
            }
            Some(encoding::hex_encode(s))
        },
        None => None,
    };
    Announcement {
        game: encoding::hex_encode(&hash),
        id: encoding::base64_url_encode(id),
        session: session_text,
        addr: encode_endpoint_addr(wire),
    }
}

/// The URL with which a peer announces itself for a game: with its full address
/// where there is one, and with the session that it has already.
pub fn announce_url(
    bootstrap_url: &str,
    topic: &str,
    id: &EndpointId,
    session: &Option<[u8; 32]>,
    wire: &Option<Vec<u8>>,
) -> (url: String)
    ensures
        url@ == announce_text(
            bootstrap_url@,
            topic@,
            id@,
            opt_hash(*session),
            crypto::bytes_of(*wire),
        ),
{
    let parts = announcement(topic, id, session, wire);
    let mut url = bootstrap_url.to_owned();
    url.append("/games/");
    url.append(parts.game.as_str());
    url.append("?id=");
    url.append(parts.id.as_str());
    match parts.session {
        Some(session) => {
            url.append("&session=");
            url.append(session.as_str());
        },
        None => {},
    }
    match parts.addr {
        Some(addr) => {
            url.append("&addr=");
            url.append(addr.as_str());
        },
        None => {},
    }
    url
}

proof fn lemma_hash_text(hash: Seq<u8>)
    requires
        hash.len() == 32,
    ensures
        server::is_hash(encoding::hex_text(hash)),
{
    let t = encoding::hex_text(hash);
    encoding::law_hex_roundtrip(hash);
    assert forall|i: int| 0 <= i < t.len() implies encoding::is_hex_digit(#[trigger] t[i]) by {
        assert(encoding::hex_bytes(t) is Some);
    }
}

/// Whether some address is of a peer.
pub open spec fn has_id(addrs: Seq<Addr>, id: Seq<u8>) -> bool {
    exists|i: int| 0 <= i < addrs.len() && (#[trigger] addrs[i]).id == id
}

/// The peers that full addresses name, without the asking peer.
pub open spec fn peers_from_addrs(encoded: Seq<Seq<char>>, me: Seq<u8>) -> Seq<Addr>
    decreases encoded.len(),
{
    if encoded.len() == 0 {
        Seq::empty()
    } else {
        let before = peers_from_addrs(encoded.drop_last(), me);
        match addr_of(encoded.last()) {
            Some(addr) => if addr.id != me {
                before.push(addr)
            } else {
                before
            },
            None => before,
        }
    }
}

/// The peers found so far, and those that identities name besides, without the
/// asking peer.
pub open spec fn peers_with_ids(found: Seq<Addr>, encoded: Seq<Seq<char>>, me: Seq<u8>) -> Seq<Addr>
    decreases encoded.len(),
{
    if encoded.len() == 0 {
        found
    } else {
        let before = peers_with_ids(found, encoded.drop_last(), me);
        match node_id_of(encoded.last()) {
            Ok(id) => if crypto::valid_endpoint_id(id) && id != me && !has_id(before, id) {
                before.push(bare_addr(id))
            } else {
                before
            },
            Err(_) => before,
        }
    }
}

/// The peers that an answer of the bootstrap server names.
pub open spec fn peers_collected(response: BootstrapResponse, me: Seq<u8>) -> Seq<Addr> {
    peers_with_ids(
        peers_from_addrs(server::texts(response.peer_addrs@), me),
        server::texts(response.peers@),
        me,
    )
}

/// Tells whether some address is of a peer.
fn names_id(addrs: &Vec<PeerAddr>, id: &EndpointId) -> (found: bool)
    ensures
        found == has_id(addrs_view(addrs@), id@),
{
    let mut i: usize = 0;
    while i < addrs.len()
        invariant
            i <= addrs@.len(),
            forall|j: int| 0 <= j < i ==> (#[trigger] addrs@[j])@.id != id@,
        decreases addrs@.len() - i,
    {
        if crypto::same_bytes(&addrs[i].id, id) {
            assert(addrs_view(addrs@)[i as int].id == id@);
            return true;
        }
        i += 1;
    }
    assert forall|j: int| 0 <= j < addrs_view(addrs@).len() implies (
    #[trigger] addrs_view(addrs@)[j]).id != id@ by {
        assert(addrs@[j]@.id != id@);
    }
    false
}

/// The peers that an answer of the bootstrap server names: those with a full
/// address, and those that are only named besides. The asking peer is left out.
pub fn collect_peers(response: &BootstrapResponse, me: &EndpointId) -> (peers: Vec<PeerAddr>)
    ensures
        addrs_view(peers@) == peers_collected(*response, me@),
{
    let ghost addr_texts = server::texts(response.peer_addrs@);
    let ghost id_texts = server::texts(response.peers@);
    let mut peers: Vec<PeerAddr> = Vec::new();
    let mut i: usize = 0;
    assert(addrs_view(peers@) =~= peers_from_addrs(addr_texts.take(0), me@));
    while i < response.peer_addrs.len()
        invariant
            i <= response.peer_addrs@.len(),
            addr_texts == server::texts(response.peer_addrs@),
            addrs_view(peers@) == peers_from_addrs(addr_texts.take(i as int), me@),
        decreases response.peer_addrs@.len() - i,
    {
        assert(addr_texts.take(i + 1).drop_last() =~= addr_texts.take(i as int));
        assert(addr_texts.take(i + 1).last() == response.peer_addrs@[i as int]@);
        let ghost before = addrs_view(peers@);
        match decode_endpoint_addr(response.peer_addrs[i].as_str()) {
            Some(addr) => {
                if !crypto::same_bytes(&addr.id, me) {
                    let ghost a = addr@;
                    peers.push(addr);
                    assert(addrs_view(peers@) =~= before.push(a));
                }
            },
            None => {},
        }
        i += 1;
    }
    assert(addr_texts.take(i as int) =~= addr_texts);
    let ghost found = addrs_view(peers@);
    let mut k: usize = 0;
    assert(addrs_view(peers@) =~= peers_with_ids(found, id_texts.take(0), me@));
    while k < response.peers.len()
        invariant
            k <= response.peers@.len(),
            id_texts == server::texts(response.peers@),
            addrs_view(peers@) == peers_with_ids(found, id_texts.take(k as int), me@),
        decreases response.peers@.len() - k,
    {
        assert(id_texts.take(k + 1).drop_last() =~= id_texts.take(k as int));
        assert(id_texts.take(k + 1).last() == response.peers@[k as int]@);
        let ghost before = addrs_view(peers@);
        match decode_nodeid_response(response.peers[k].as_str()) {
            Ok(id) => {
                if crypto::endpoint_id_is_valid(&id) && !crypto::same_bytes(&id, me) && !names_id(
                    &peers,
                    &id,
                ) {
                    peers.push(PeerAddr::new(id));
                    assert(addrs_view(peers@) =~= before.push(bare_addr(id@)));
                }
            },
            Err(_) => {},
        }
        k += 1;
    }
    assert(id_texts.take(k as int) =~= id_texts);
    peers
}

proof fn lemma_from_addrs_excludes(encoded: Seq<Seq<char>>, me: Seq<u8>)
    ensures
        !has_id(peers_from_addrs(encoded, me), me),
    decreases encoded.len(),
{
    if encoded.len() > 0 {
        lemma_from_addrs_excludes(encoded.drop_last(), me);
        let before = peers_from_addrs(encoded.drop_last(), me);
        let all = peers_from_addrs(encoded, me);
        assert forall|i: int| 0 <= i < all.len() implies (#[trigger] all[i]).id != me by {
            if i < before.len() {
                assert(before[i].id != me);
            }
        }
    }
}

proof fn lemma_with_ids_excludes(found: Seq<Addr>, encoded: Seq<Seq<char>>, me: Seq<u8>)
    requires
        !has_id(found, me),
    ensures
        !has_id(peers_with_ids(found, encoded, me), me),
    decreases encoded.len(),
{
    if encoded.len() > 0 {
        lemma_with_ids_excludes(found, encoded.drop_last(), me);
        let before = peers_with_ids(found, encoded.drop_last(), me);
        let all = peers_with_ids(found, encoded, me);
        assert forall|i: int| 0 <= i < all.len() implies (#[trigger] all[i]).id != me by {
            if i < before.len() {
                assert(before[i].id != me);
            }
        }
    }
}

/// A peer never finds itself.
pub proof fn law_never_finds_itself(response: BootstrapResponse, me: Seq<u8>)
    ensures
        !has_id(peers_collected(response, me), me),
{
    lemma_from_addrs_excludes(server::texts(response.peer_addrs@), me);
    lemma_with_ids_excludes(
        peers_from_addrs(server::texts(response.peer_addrs@), me),
        server::texts(response.peers@),
        me,
    );
}

proof fn lemma_ids_found(found: Seq<Addr>, encoded: Seq<Seq<char>>, me: Seq<u8>, k: int)
    requires
        0 <= k < encoded.len(),
        node_id_of(encoded[k]) is Ok,
        crypto::valid_endpoint_id(node_id_of(encoded[k])->Ok_0),
        node_id_of(encoded[k])->Ok_0 != me,
    ensures
        has_id(peers_with_ids(found, encoded, me), node_id_of(encoded[k])->Ok_0),
    decreases encoded.len(),
{
    let id = node_id_of(encoded[k])->Ok_0;
    let before = peers_with_ids(found, encoded.drop_last(), me);
    let all = peers_with_ids(found, encoded, me);
    if k < encoded.len() - 1 {
        lemma_ids_found(found, encoded.drop_last(), me, k);
        let i = choose|i: int| 0 <= i < before.len() && (#[trigger] before[i]).id == id;
        assert(all[i].id == id);
    } else if has_id(before, id) {
        let i = choose|i: int| 0 <= i < before.len() && (#[trigger] before[i]).id == id;
        assert(all[i].id == id);
    } else {
        assert(all[before.len() as int].id == id);
    }
}

/// Every other peer that the bootstrap server names by a valid identity is found.
pub proof fn law_named_peers_are_found(response: BootstrapResponse, me: Seq<u8>, k: int)
    requires
        0 <= k < response.peers@.len(),
        node_id_of(response.peers@[k]@) is Ok,
        crypto::valid_endpoint_id(node_id_of(response.peers@[k]@)->Ok_0),
        node_id_of(response.peers@[k]@)->Ok_0 != me,
    ensures
        has_id(peers_collected(response, me), node_id_of(response.peers@[k]@)->Ok_0),
{
    lemma_ids_found(
        peers_from_addrs(server::texts(response.peer_addrs@), me),
        server::texts(response.peers@),
        me,
        k,
    );
}

// ---------------------------------------------------------------------------
// The distributed hash table
// ---------------------------------------------------------------------------
/// What a peer publishes in the distributed hash table.
#[derive(Debug, Clone, Copy)]
pub struct DhtRecordContent {
    /// The peer's identity.
    pub id: [u8; 32],
    /// The session that the peer takes part in.
    pub session_seed: [u8; 32],
}

/// The first minute that is looked at.
pub open spec fn earliest_minute(minute: u64) -> u64 {
    if minute >= DHT_SCAN_MINUTES {
        (minute - DHT_SCAN_MINUTES) as u64
    } else {
        0
    }
}

/// The minutes whose records are looked at, latest first.
pub fn scan_minutes(minute: u64) -> (minutes: Vec<u64>)
    ensures
        minutes@ == Seq::new(
            (minute - earliest_minute(minute) + 1) as nat,
            |i: int| (minute - i) as u64,
        ),
{
    let first: u64 = if minute >= DHT_SCAN_MINUTES {
        minute - DHT_SCAN_MINUTES
    } else {
        0
    };
    let mut minutes: Vec<u64> = Vec::new();
    let mut i: u64 = 0;
    while i <= minute - first
        invariant
            first == earliest_minute(minute),
            i <= minute - first + 1,
            minutes@.len() == i,
            forall|j: int| 0 <= j < i ==> minutes@[j] == minute - j,
        decreases minute - first + 1 - i,
    {
        minutes.push(minute - i);
        i += 1;
    }
    assert(minutes@ =~= Seq::new(
        (minute - earliest_minute(minute) + 1) as nat,
        |i: int| (minute - i) as u64,
    ));
    minutes
}

/// Whether a record is of another peer.
pub open spec fn record_counts(record: DhtRecordContent, me: Seq<u8>) -> bool {
    crypto::valid_endpoint_id(record.id@) && record.id@ != me
}

/// What some records tell: the other peers, and the session of the first of them.
pub open spec fn records_scanned(records: Seq<DhtRecordContent>, me: Seq<u8>) -> (
    Seq<Addr>,
    Option<Seq<u8>>,
)
    decreases records.len(),
{
    if records.len() == 0 {
        (Seq::empty(), None)
    } else {
        let (peers, session) = records_scanned(records.drop_last(), me);
        let last = records.last();
        if record_counts(last, me) {
            (
                peers.push(bare_addr(last.id@)),
                if session is None {
                    Some(last.session_seed@)
                } else {
                    session
                },
            )
        } else {
            (peers, session)
        }
    }
}

// ---------------------------------------------------------------------------
// Setting discovery up
// ---------------------------------------------------------------------------
/// What setting discovery up waits for.
#[derive(Debug, Clone, Copy, PartialEq, Eq, Structural)]
pub enum SetupPhase {
    /// For the bootstrap server.
    Asking,
    /// For the session to be joined.
    Joining,
    /// For a search of the distributed hash table.
    Searching,
    /// For the session that the search found to be joined.
    Switching,
    /// For nothing any more.
    Settled,
}

/// What happened while discovery is set up.
#[derive(Debug)]
pub enum SetupEvent {
    /// The bootstrap server answered.
    BootstrapAnswered(BootstrapResponse),
    /// The bootstrap server did not answer.
    BootstrapFailed,
    /// The session was joined, and handshakes are accepted.
    Joined,
    /// The distributed hash table was searched. It holds these records, in the order
    /// in which they were found.
    DhtSearched(Vec<DhtRecordContent>),
}

/// What to do next while discovery is set up.
#[derive(Debug)]
pub enum SetupAction {
    /// Ask the bootstrap server.
    AskBootstrap,
    /// Join a session, leaving the one joined before, if any, and dial the
    /// candidates.
    Join([u8; 32]),
    /// Publish a record in the distributed hash table and search it, in the
    /// background.
    SearchDht(DhtRecordContent),
    /// Dial the candidates, and go on looking for peers from time to time.
    Refresh,
}

/// Mathematical value of a [`SetupAction`].
pub enum SetupStep {
    /// Ask the bootstrap server.
    AskBootstrap,
    /// Join a session.
    Join(Seq<u8>),
    /// Publish an identity and a session in the distributed hash table and search it.
    SearchDht { id: Seq<u8>, session: Seq<u8> },
    /// Go on looking for peers.
    Refresh,
}

impl View for SetupAction {
    type V = SetupStep;

    open spec fn view(&self) -> SetupStep {
        match self {
            SetupAction::AskBootstrap => SetupStep::AskBootstrap,
            SetupAction::Join(hash) => SetupStep::Join(hash@),
            SetupAction::SearchDht(record) => SetupStep::SearchDht {
                id: record.id@,
                session: record.session_seed@,
            },
            SetupAction::Refresh => SetupStep::Refresh,
        }
    }
}

/// What discovery knows while it is set up. The session is joined as soon as the
/// bootstrap server has answered or failed to; the distributed hash table is searched
/// only then, in the background.
pub struct DiscoverySetup {
    mode: DiscoveryMode,
    me: EndpointId,
    session_hash: [u8; 32],
    initial: Vec<PeerAddr>,
    from_bootstrap: usize,
    bootstrap_success: bool,
    phase: SetupPhase,
}

/// Mathematical value of a [`DiscoverySetup`].
#[verifier::ext_equal]
pub struct Setup {
    /// Strategy.
    pub mode: DiscoveryMode,
    /// The own identity.
    pub me: Seq<u8>,
    /// The session to join.
    pub session: Seq<u8>,
    /// Peers that the bootstrap server named.
    pub via_bootstrap: Seq<Addr>,
    /// Peers that the distributed hash table named.
    pub via_dht: Seq<Addr>,
    /// Whether the bootstrap server answered.
    pub answered: bool,
    /// What is waited for.
    pub phase: SetupPhase,
}

/// Whether the bootstrap server is asked.
pub open spec fn asks_bootstrap(mode: DiscoveryMode) -> bool {
    mode != DiscoveryMode::DhtOnly
}

/// Whether the distributed hash table is used at all.
pub open spec fn uses_dht(mode: DiscoveryMode) -> bool {
    mode != DiscoveryMode::BootstrapOnly
}

/// Whether the distributed hash table is searched once the session is joined: only if
/// the bootstrap server gave no peers.
pub open spec fn searches_dht(setup: Setup) -> bool {
    (!setup.answered || setup.via_bootstrap.len() == 0) && uses_dht(setup.mode)
}

/// Discovery for a game, before anyone was asked, and what to do first. The session
/// to join is the game's own.
pub open spec fn setup_started(mode: DiscoveryMode, topic: Seq<char>, me: Seq<u8>) -> (
    Setup,
    SetupStep,
) {
    let setup = Setup {
        mode,
        me,
        session: topic_hash(topic),
        via_bootstrap: Seq::empty(),
        via_dht: Seq::empty(),
        answered: false,
        phase: if asks_bootstrap(mode) {
            SetupPhase::Asking
        } else {
            SetupPhase::Joining
        },
    };
    (
        setup,
        if asks_bootstrap(mode) {
            SetupStep::AskBootstrap
        } else {
            SetupStep::Join(setup.session)
        },
    )
}

/// Whether an event answers what is waited for.
pub open spec fn setup_expects(phase: SetupPhase, event: SetupEvent) -> bool {
    match phase {
        SetupPhase::Asking => event is BootstrapAnswered || event is BootstrapFailed,
        SetupPhase::Joining => event is Joined,
        SetupPhase::Searching => event is DhtSearched,
        SetupPhase::Switching => event is Joined,
        SetupPhase::Settled => false,
    }
}

/// What to do after an event. The session of the first other peer that the distributed
/// hash table names is taken over.
pub open spec fn setup_stepped(setup: Setup, event: SetupEvent) -> (Setup, SetupStep) {
    match event {
        SetupEvent::BootstrapAnswered(response) => {
            let session = adopted_session(setup.session, response.session@);
            (
                Setup {
                    session,
                    via_bootstrap: peers_collected(response, setup.me),
                    answered: true,
                    phase: SetupPhase::Joining,
                    ..setup
                },
                SetupStep::Join(session),
            )
        },
        SetupEvent::BootstrapFailed => (
            Setup { phase: SetupPhase::Joining, ..setup },
            SetupStep::Join(setup.session),
        ),
        SetupEvent::Joined => if setup.phase == SetupPhase::Joining && searches_dht(setup) {
            (
                Setup { phase: SetupPhase::Searching, ..setup },
                SetupStep::SearchDht { id: setup.me, session: setup.session },
            )
        } else {
            (Setup { phase: SetupPhase::Settled, ..setup }, SetupStep::Refresh)
        },
        SetupEvent::DhtSearched(records) => {
            let (peers, found) = records_scanned(records@, setup.me);
            let session = match found {
                Some(s) => s,
                None => setup.session,
            };
            if session != setup.session {
                (
                    Setup { session, via_dht: peers, phase: SetupPhase::Switching, ..setup },
                    SetupStep::Join(session),
                )
            } else {
                (
                    Setup { via_dht: peers, phase: SetupPhase::Settled, ..setup },
                    SetupStep::Refresh,
                )
            }
        },
    }
}

/// The session that an answer of the bootstrap server names, if it is one; else
/// the session so far.
pub open spec fn adopted_session(session: Seq<u8>, named: Seq<char>) -> Seq<u8> {
    match encoding::hex_bytes(named) {
        Some(bytes) => if bytes.len() == 32 {
            bytes
        } else {
            session
        },
        None => session,
    }
}

/// The peers to dial first: those of the bootstrap server, through the relay
/// server where they gave no address, then those of the distributed hash table.
pub open spec fn first_candidates(setup: Setup, relay: Option<Seq<char>>) -> Seq<Addr> {
    Seq::new(
        setup.via_bootstrap.len(),
        |i: int| with_fallback(setup.via_bootstrap[i], relay),
    ) + setup.via_dht
}

/// Takes over the session that an answer names.
fn adopt_session(session: [u8; 32], named: &str) -> (adopted: [u8; 32])
    ensures
        adopted@ == adopted_session(session@, named@),
{
    match encoding::hex_decode(named) {
        Some(bytes) => match to_array(&bytes) {
            Some(hash) => hash,
            None => session,
        },
        None => session,
    }
}

impl View for DiscoverySetup {
    type V = Setup;

    closed spec fn view(&self) -> Setup {
        Setup {
            mode: self.mode,
            me: self.me@,
            session: self.session_hash@,
            via_bootstrap: addrs_view(self.initial@.take(self.from_bootstrap as int)),
            via_dht: addrs_view(self.initial@.skip(self.from_bootstrap as int)),
            answered: self.bootstrap_success,
            phase: self.phase,
        }
    }
}

impl DiscoverySetup {
    /// The two parts of the list fit together, and each is filled when its turn has
    /// come.
    pub closed spec fn wf(self) -> bool {
        &&& self.from_bootstrap <= self.initial@.len()
        &&& self.phase == SetupPhase::Asking ==> self.initial@.len() == 0
        &&& self.phase == SetupPhase::Joining || self.phase == SetupPhase::Searching
            ==> self.from_bootstrap == self.initial@.len()
    }

    /// Starts discovery for a game, and says what to do first.
    pub fn start(mode: DiscoveryMode, topic: &str, me: EndpointId) -> (begun: (
        DiscoverySetup,
        SetupAction,
    ))
        ensures
            begun.0.wf(),
            (begun.0@, begun.1@) == setup_started(mode, topic@, me@),
    {
        let hash = get_hashed_seed(topic);
        let asks = mode != DiscoveryMode::DhtOnly;
        let setup = DiscoverySetup {
            mode,
            me,
            session_hash: hash,
            initial: Vec::new(),
            from_bootstrap: 0,
            bootstrap_success: false,
            phase: if asks {
                SetupPhase::Asking
            } else {
                SetupPhase::Joining
            },
        };
        assert(setup@.via_bootstrap =~= Seq::empty());
        assert(setup@.via_dht =~= Seq::empty());
        let action = if asks {
            SetupAction::AskBootstrap
        } else {
            SetupAction::Join(hash)
        };
        (setup, action)
    }

    /// What is waited for.
    pub fn phase(&self) -> (phase: SetupPhase)
        ensures
            phase == self@.phase,
    {
        self.phase
    }

    /// Whether the bootstrap server is asked, now and from time to time.
    pub fn wants_bootstrap(&self) -> (yes: bool)
        ensures
            yes == asks_bootstrap(self@.mode),
    {
        self.mode != DiscoveryMode::DhtOnly
    }

    /// Takes in what happened, and says what to do next. Whether the bootstrap server
    /// answered or failed to, the session is joined next; the distributed hash table is
    /// searched only after that.
    pub fn next_step(&mut self, event: SetupEvent) -> (action: SetupAction)
        requires
            old(self).wf(),
            setup_expects(old(self)@.phase, event),
        ensures
            final(self).wf(),
            (final(self)@, action@) == setup_stepped(old(self)@, event),
            event is BootstrapAnswered || event is BootstrapFailed ==> action@ == SetupStep::Join(
                final(self)@.session,
            ),
            action@ is SearchDht ==> event is Joined,
    {
        match event {
            SetupEvent::BootstrapAnswered(response) => {
                self.bootstrap_answered(&response);
                SetupAction::Join(self.session_hash)
            },
            SetupEvent::BootstrapFailed => {
                self.phase = SetupPhase::Joining;
                SetupAction::Join(self.session_hash)
            },
            SetupEvent::Joined => {
                if self.phase == SetupPhase::Joining && self.wants_dht() {
                    self.phase = SetupPhase::Searching;
                    SetupAction::SearchDht(self.record())
                } else {
                    self.phase = SetupPhase::Settled;
                    SetupAction::Refresh
                }
            },
            SetupEvent::DhtSearched(records) => {
                if self.dht_searched(&records) {
                    SetupAction::Join(self.session_hash)
                } else {
                    SetupAction::Refresh
                }
            },
        }
    }

    /// Takes in an answer of the bootstrap server.
    fn bootstrap_answered(&mut self, response: &BootstrapResponse)
        requires
            old(self).wf(),
            old(self)@.phase == SetupPhase::Asking,
        ensures
            final(self).wf(),
            final(self)@ == (Setup {
                session: adopted_session(old(self)@.session, response.session@),
                via_bootstrap: peers_collected(*response, old(self)@.me),
                answered: true,
                phase: SetupPhase::Joining,
                ..old(self)@
            }),
    {
        self.session_hash = adopt_session(self.session_hash, response.session.as_str());
        let peers = collect_peers(response, &self.me);
        self.from_bootstrap = peers.len();
        self.initial = peers;
        self.bootstrap_success = true;
        self.phase = SetupPhase::Joining;
        assert(self.initial@.take(self.from_bootstrap as int) =~= self.initial@);
        assert(self@.via_dht =~= old(self)@.via_dht);
    }

    /// Whether the distributed hash table is to be searched once the session is
    /// joined.
    fn wants_dht(&self) -> (yes: bool)
        requires
            self.wf(),
        ensures
            yes == searches_dht(self@),
    {
        (!self.bootstrap_success || self.from_bootstrap == 0) && self.mode
            != DiscoveryMode::BootstrapOnly
    }

    /// What to publish in the distributed hash table.
    pub fn record(&self) -> (record: DhtRecordContent)
        ensures
            record.id@ == self@.me,
            record.session_seed@ == self@.session,
    {
        DhtRecordContent { id: self.me, session_seed: self.session_hash }
    }

    /// Takes in the records found in the distributed hash table, in the order in
    /// which they were found. Tells whether another session is to be joined.
    fn dht_searched(&mut self, records: &Vec<DhtRecordContent>) -> (switched: bool)
        requires
            old(self).wf(),
            old(self)@.phase == SetupPhase::Searching,
        ensures
            final(self).wf(),
            ({
                let (peers, found) = records_scanned(records@, old(self)@.me);
                let session = match found {
                    Some(s) => s,
                    None => old(self)@.session,
                };
                &&& switched == (session != old(self)@.session)
                &&& final(self)@ == (Setup {
                    session,
                    via_dht: peers,
                    phase: if switched {
                        SetupPhase::Switching
                    } else {
                        SetupPhase::Settled
                    },
                    ..old(self)@
                })
            }),
    {
        self.phase = SetupPhase::Settled;
        let mut found: Option<[u8; 32]> = None;
        let mut i: usize = 0;
        let ghost start = self@;
        assert(start.via_dht =~= Seq::empty());
        assert(records@.take(0) =~= Seq::empty());
        while i < records.len()
            invariant
                i <= records@.len(),
                self.wf(),
                opt_hash(found) == records_scanned(records@.take(i as int), start.me).1,
                self.phase == SetupPhase::Settled,
                self@ == (Setup {
                    via_dht: records_scanned(records@.take(i as int), start.me).0,
                    ..start
                }),
            decreases records@.len() - i,
        {
            assert(records@.take(i + 1).drop_last() =~= records@.take(i as int));
            assert(records@.take(i + 1).last() == records@[i as int]);
            let record = records[i];
            let ghost before = *self;
            if crypto::endpoint_id_is_valid(&record.id) && !crypto::same_bytes(
                &record.id,
                &self.me,
            ) {
                self.initial.push(PeerAddr::new(record.id));
                if found.is_none() {
                    found = Some(record.session_seed);
                }
                assert(self@.via_bootstrap =~= before@.via_bootstrap);
                assert(self@.via_dht =~= before@.via_dht.push(bare_addr(record.id@)));
            }
            i += 1;
        }
        assert(records@.take(i as int) =~= records@);
        match found {
            Some(hash) => {
                if crypto::same_bytes(&hash, &self.session_hash) {
                    false
                } else {
                    self.session_hash = hash;
                    self.phase = SetupPhase::Switching;
                    true
                }
            },
            None => false,
        }
    }

    /// The session to join.
    pub fn session(&self) -> (hash: [u8; 32])
        ensures
            hash@ == self@.session,
    {
        self.session_hash
    }

    /// Whether later games are to be published in the distributed hash table too.
    pub fn keeps_dht(&self) -> (yes: bool)
        ensures
            yes == uses_dht(self@.mode),
    {
        self.mode != DiscoveryMode::BootstrapOnly
    }

    /// The peers to dial first.
    pub fn candidates(&self, relay: &Option<String>) -> (peers: Vec<PeerAddr>)
        requires
            self.wf(),
        ensures
            addrs_view(peers@) == first_candidates(self@, encoding::text_of(*relay)),
    {
        let mut peers: Vec<PeerAddr> = Vec::new();
        let mut i: usize = 0;
        while i < self.initial.len()
            invariant
                i <= self.initial@.len(),
                self.wf(),
                peers@.len() == i,
                forall|j: int|
                    0 <= j < i ==> (#[trigger] peers@[j])@ == (if j < self.from_bootstrap {
                        with_fallback(self.initial@[j]@, encoding::text_of(*relay))
                    } else {
                        self.initial@[j]@
                    }),
            decreases self.initial@.len() - i,
        {
            let addr = self.initial[i].clone();
            if i < self.from_bootstrap {
                peers.push(addr.or_relay(relay));
            } else {
                peers.push(addr);
            }
            i += 1;
        }
        assert(addrs_view(peers@) =~= first_candidates(self@, encoding::text_of(*relay)));
        peers
    }
}

/// The peers of a refresh that are worth dialling: those that are not known to
/// fail, through the relay server where they gave no address.
pub open spec fn refreshed(peers: Seq<Addr>, failed: Set<Seq<u8>>, relay: Option<Seq<char>>) -> Seq<
    Addr,
>
    decreases peers.len(),
{
    if peers.len() == 0 {
        Seq::empty()
    } else {
        let before = refreshed(peers.drop_last(), failed, relay);
        if failed.contains(peers.last().id) {
            before
        } else {
            before.push(with_fallback(peers.last(), relay))
        }
    }
}

/// The peers of a refresh that are worth dialling.
pub fn refresh_candidates(peers: &Vec<PeerAddr>, failed: &PeerSet, relay: &Option<String>) -> (
    candidates: Vec<PeerAddr>)
    ensures
        addrs_view(candidates@) == refreshed(
            addrs_view(peers@),
            failed@,
            encoding::text_of(*relay),
        ),
{
    let ghost all = addrs_view(peers@);
    let mut candidates: Vec<PeerAddr> = Vec::new();
    let mut i: usize = 0;
    assert(addrs_view(candidates@) =~= refreshed(
        all.take(0),
        failed@,
        encoding::text_of(*relay),
    ));
    while i < peers.len()
        invariant
            i <= peers@.len(),
            all == addrs_view(peers@),
            addrs_view(candidates@) == refreshed(
                all.take(i as int),
                failed@,
                encoding::text_of(*relay),
            ),
        decreases peers@.len() - i,
    {
        assert(all.take(i + 1).drop_last() =~= all.take(i as int));
        assert(all.take(i + 1).last() == peers@[i as int]@);
        if !failed.contains(&peers[i].id) {
            let ghost before = addrs_view(candidates@);
            let addr = peers[i].clone().or_relay(relay);
            let ghost a = addr@;
            candidates.push(addr);
            assert(addrs_view(candidates@) =~= before.push(a));
        }
        i += 1;
    }
    assert(all.take(i as int) =~= all);
    candidates
}

/// Tells whether the publisher of a record is a peer worth dialling: a valid
/// identity, not the own one, and not known to fail.
pub fn publisher_counts(id: &[u8; 32], me: &EndpointId, failed: &PeerSet) -> (counts: bool)
    ensures
        counts == (crypto::valid_endpoint_id(id@) && id@ != me@ && !failed@.contains(id@)),
{
    crypto::endpoint_id_is_valid(id) && !crypto::same_bytes(id, me) && !failed.contains(id)
}

// ---------------------------------------------------------------------------
// Dialling
// ---------------------------------------------------------------------------
/// A set of peers.
pub struct PeerSet {
    ids: Vec<EndpointId>,
}

impl View for PeerSet {
    type V = Set<Seq<u8>>;

    closed spec fn view(&self) -> Set<Seq<u8>> {
        Set::new(
            |id: Seq<u8>|
                exists|i: int| 0 <= i < self.ids@.len() && (#[trigger] self.ids@[i])@ == id,
        )
    }
}

impl PeerSet {
    /// An empty set.
    pub fn new() -> (set: PeerSet)
        ensures
            set@ == Set::<Seq<u8>>::empty(),
    {
        let set = PeerSet { ids: Vec::new() };
        assert(set@ =~= Set::<Seq<u8>>::empty());
        set
    }

    /// Whether a peer is in the set.
    pub fn contains(&self, id: &EndpointId) -> (is: bool)
        ensures
            is == self@.contains(id@),
    {
        let mut i: usize = 0;
        while i < self.ids.len()
            invariant
                i <= self.ids@.len(),
                forall|j: int| 0 <= j < i ==> (#[trigger] self.ids@[j])@ != id@,
            decreases self.ids@.len() - i,
        {
            if crypto::same_bytes(&self.ids[i], id) {
                return true;
            }
            i += 1;
        }
        false
    }

    /// Adds a peer; tells whether it was not there before.
    pub fn insert(&mut self, id: EndpointId) -> (added: bool)
        ensures
            added == !old(self)@.contains(id@),
            final(self)@ == old(self)@.insert(id@),
    {
        if self.contains(&id) {
            assert(self@ =~= old(self)@.insert(id@));
            return false;
        }
        self.ids.push(id);
        proof {
            assert forall|x: Seq<u8>| self@.contains(x) == old(self)@.insert(id@).contains(x) by {
                if x == id@ {
                    assert(self.ids@[self.ids@.len() - 1]@ == id@);
                } else if old(self)@.contains(x) {
                    let i = choose|i: int|
                        0 <= i < old(self).ids@.len() && (#[trigger] old(self).ids@[i])@ == x;
                    assert(self.ids@[i]@ == x);
                } else if self@.contains(x) {
                    let i = choose|i: int|
                        0 <= i < self.ids@.len() && (#[trigger] self.ids@[i])@ == x;
                    assert(old(self).ids@[i]@ == x);
                }
            }
            assert(self@ =~= old(self)@.insert(id@));
        }
        true
    }

    /// Takes a peer out.
    pub fn remove(&mut self, id: &EndpointId)
        ensures
            final(self)@ == old(self)@.remove(id@),
    {
        let mut kept: Vec<EndpointId> = Vec::new();
        let mut i: usize = 0;
        while i < self.ids.len()
            invariant
                i <= self.ids@.len(),
                *self == *old(self),
                forall|j: int|
                    0 <= j < kept@.len() ==> (#[trigger] kept@[j])@ != id@ && exists|k: int|
                        0 <= k < i && (#[trigger] self.ids@[k])@ == kept@[j]@,
                forall|k: int|
                    0 <= k < i && (#[trigger] self.ids@[k])@ != id@ ==> exists|j: int|
                        0 <= j < kept@.len() && (#[trigger] kept@[j])@ == self.ids@[k]@,
            decreases self.ids@.len() - i,
        {
            if !crypto::same_bytes(&self.ids[i], id) {
                let ghost before = kept@;
                kept.push(self.ids[i]);
                assert forall|k: int| 0 <= k < i + 1 && (#[trigger] self.ids@[k])@ != id@ implies exists|
                    j: int,
                |
                    0 <= j < kept@.len() && (#[trigger] kept@[j])@ == self.ids@[k]@ by {
                    if k < i {
                        let j = choose|j: int|
                            0 <= j < before.len() && (#[trigger] before[j])@ == self.ids@[k]@;
                        assert(kept@[j]@ == self.ids@[k]@);
                    } else {
                        assert(kept@[before.len() as int]@ == self.ids@[k]@);
                    }
                }
            }
            i += 1;
        }
        self.ids = kept;
        proof {
            assert forall|x: Seq<u8>| self@.contains(x) == old(self)@.remove(id@).contains(x) by {
                if self@.contains(x) {
                    let j = choose|j: int|
                        0 <= j < self.ids@.len() && (#[trigger] self.ids@[j])@ == x;
                    assert(self.ids@[j]@ != id@);
                    let k = choose|k: int|
                        0 <= k < old(self).ids@.len() && (#[trigger] old(self).ids@[k])@
                            == self.ids@[j]@;
                    assert(old(self)@.contains(x));
                }
                if old(self)@.remove(id@).contains(x) {
                    let k = choose|k: int|
                        0 <= k < old(self).ids@.len() && (#[trigger] old(self).ids@[k])@ == x;
                    assert(old(self).ids@[k]@ != id@);
                }
            }
            assert(self@ =~= old(self)@.remove(id@));
        }
    }
}

/// What to do next about a peer that is being dialled.
#[derive(Debug)]
pub enum DialAction {
    /// Shake hands with the peer at an address.
    Handshake(PeerAddr),
    /// Hand the connection over to gossip.
    HandToGossip,
    /// The peer is connected: join it, tell the session and end discovery.
    Connected,
    /// The peer cannot be reached; it may be dialled again when it is found again.
    GiveUp,
}

/// What came of it.
#[derive(Debug, Clone, Copy, PartialEq, Eq, Structural)]
pub enum DialEvent {
    /// The handshake was done.
    HandshakeDone,
    /// The handshake failed.
    HandshakeFailed,
    /// Gossip took the connection.
    GossipDone,
    /// Gossip did not take the connection.
    GossipFailed,
}

/// What a dialled peer is waited for.
#[derive(Debug, Clone, Copy, PartialEq, Eq, Structural)]
pub enum DialPhase {
    /// For a handshake.
    Shaking,
    /// For gossip to take the connection.
    Handing,
    /// For nothing any more.
    Finished,
}

/// Mathematical value of a [`DialAction`].
pub enum Dialled {
    /// Shake hands with the peer at an address.
    Handshake(Addr),
    /// Hand the connection over to gossip.
    HandToGossip,
    /// The peer is connected.
    Connected,
    /// The peer cannot be reached.
    GiveUp,
}

impl View for DialAction {
    type V = Dialled;

    open spec fn view(&self) -> Dialled {
        match self {
            DialAction::Handshake(addr) => Dialled::Handshake(addr@),
            DialAction::HandToGossip => Dialled::HandToGossip,
            DialAction::Connected => Dialled::Connected,
            DialAction::GiveUp => Dialled::GiveUp,
        }
    }
}

/// Dials one peer: at its own address first; if that fails and a relay server was
/// configured, through one fallback relay server after another.
pub struct Dialer {
    peer: EndpointId,
    has_relay: bool,
    fallbacks: Vec<String>,
    tried: usize,
    phase: DialPhase,
}

/// Mathematical value of a [`Dialer`].
#[verifier::ext_equal]
pub struct Dial {
    /// The peer.
    pub peer: Seq<u8>,
    /// Whether a relay server was configured.
    pub has_relay: bool,
    /// The fallback relay servers.
    pub fallbacks: Seq<Seq<char>>,
    /// How many of them were tried.
    pub tried: int,
    /// What is waited for.
    pub phase: DialPhase,
}

/// The next attempt to reach a peer, if there is one left.
pub open spec fn next_attempt(d: Dial) -> (Dial, Dialled) {
    if d.has_relay && d.tried < d.fallbacks.len() {
        (
            Dial { tried: d.tried + 1, phase: DialPhase::Shaking, ..d },
            Dialled::Handshake(
                Addr { relay: Some(d.fallbacks[d.tried]), ..bare_addr(d.peer) },
            ),
        )
    } else {
        (Dial { phase: DialPhase::Finished, ..d }, Dialled::GiveUp)
    }
}

/// Whether an event answers what is waited for.
pub open spec fn dial_expects(phase: DialPhase, event: DialEvent) -> bool {
    match phase {
        DialPhase::Shaking => event == DialEvent::HandshakeDone || event
            == DialEvent::HandshakeFailed,
        DialPhase::Handing => event == DialEvent::GossipDone || event == DialEvent::GossipFailed,
        DialPhase::Finished => false,
    }
}

/// What to do after an event. A connection at the peer's own address that gossip
/// does not take is not tried otherwise.
pub open spec fn dial_stepped(d: Dial, event: DialEvent) -> (Dial, Dialled) {
    match event {
        DialEvent::HandshakeDone => (
            Dial { phase: DialPhase::Handing, ..d },
            Dialled::HandToGossip,
        ),
        DialEvent::HandshakeFailed => next_attempt(d),
        DialEvent::GossipDone => (Dial { phase: DialPhase::Finished, ..d }, Dialled::Connected),
        DialEvent::GossipFailed => if d.tried == 0 {
            (Dial { phase: DialPhase::Finished, ..d }, Dialled::GiveUp)
        } else {
            next_attempt(d)
        },
    }
}

impl View for Dialer {
    type V = Dial;

    closed spec fn view(&self) -> Dial {
        Dial {
            peer: self.peer@,
            has_relay: self.has_relay,
            fallbacks: server::texts(self.fallbacks@),
            tried: self.tried as int,
            phase: self.phase,
        }
    }
}

impl Dialer {
    /// No more fallback relay servers were tried than there are.
    pub closed spec fn wf(self) -> bool {
        self.tried <= self.fallbacks@.len()
    }

    /// Starts to dial a peer that was found.
    pub fn start(candidate: PeerAddr, relay: &Option<String>, fallbacks: Vec<String>) -> (begun: (
        Dialer,
        DialAction,
    ))
        ensures
            begun.0.wf(),
            begun.0@ == (Dial {
                peer: candidate@.id,
                has_relay: relay is Some,
                fallbacks: server::texts(fallbacks@),
                tried: 0,
                phase: DialPhase::Shaking,
            }),
            begun.1@ == Dialled::Handshake(with_fallback(candidate@, encoding::text_of(*relay))),
    {
        let dialer = Dialer {
            peer: candidate.id,
            has_relay: relay.is_some(),
            fallbacks,
            tried: 0,
            phase: DialPhase::Shaking,
        };
        (dialer, DialAction::Handshake(candidate.or_relay(relay)))
    }

    /// The peer.
    pub fn peer(&self) -> (id: EndpointId)
        ensures
            id@ == self@.peer,
    {
        self.peer
    }

    /// What is waited for.
    pub fn phase(&self) -> (phase: DialPhase)
        ensures
            phase == self@.phase,
    {
        self.phase
    }

    fn attempt(&mut self) -> (action: DialAction)
        requires
            old(self).wf(),
        ensures
            final(self).wf(),
            (final(self)@, action@) == next_attempt(old(self)@),
    {
        if self.has_relay && self.tried < self.fallbacks.len() {
            let relay = self.fallbacks[self.tried].clone();
            self.tried = self.tried + 1;
            self.phase = DialPhase::Shaking;
            DialAction::Handshake(PeerAddr::new(self.peer).with_relay_url(relay))
        } else {
            self.phase = DialPhase::Finished;
            DialAction::GiveUp
        }
    }

    /// What to do after an event.
    pub fn step(&mut self, event: DialEvent) -> (action: DialAction)
        requires
            old(self).wf(),
            dial_expects(old(self)@.phase, event),
        ensures
            final(self).wf(),
            (final(self)@, action@) == dial_stepped(old(self)@, event),
    {
        match event {
            DialEvent::HandshakeDone => {
                self.phase = DialPhase::Handing;
                DialAction::HandToGossip
            },
            DialEvent::HandshakeFailed => self.attempt(),
            DialEvent::GossipDone => {
                self.phase = DialPhase::Finished;
                DialAction::Connected
            },
            DialEvent::GossipFailed => {
                if self.tried == 0 {
                    self.phase = DialPhase::Finished;
                    DialAction::GiveUp
                } else {
                    self.attempt()
                }
            },
        }
    }
}

/// How many events a dial can still take.
pub open spec fn dial_budget(d: Dial) -> int {
    match d.phase {
        DialPhase::Shaking => 2 * (d.fallbacks.len() - d.tried) + 2,
        DialPhase::Handing => 2 * (d.fallbacks.len() - d.tried) + 1,
        DialPhase::Finished => 0,
    }
}

/// Dialling comes to an end: every event leaves fewer that are possible.
pub proof fn law_dial_ends(d: Dial, event: DialEvent)
    requires
        0 <= d.tried <= d.fallbacks.len(),
        dial_expects(d.phase, event),
    ensures
        0 <= dial_budget(dial_stepped(d, event).0) < dial_budget(d),
        0 <= dial_stepped(d, event).0.tried <= d.fallbacks.len(),
        dial_budget(dial_stepped(d, event).0) == 0 <==> dial_stepped(d, event).1 is Connected
            || dial_stepped(d, event).1 is GiveUp,
{
}

/// A peer counts as connected only after a handshake whose connection gossip took.
pub proof fn law_connected_after_handshake(d: Dial, event: DialEvent)
    requires
        dial_expects(d.phase, event),
    ensures
        dial_stepped(d, event).1 is Connected <==> event == DialEvent::GossipDone,
        dial_stepped(d, event).1 is Connected ==> d.phase == DialPhase::Handing,
        dial_stepped(d, event).0.phase == DialPhase::Handing ==> event == DialEvent::HandshakeDone,
{
}

/// Tells whether the session counts as discovered: a peer has completed the
/// handshake and gossip has joined.
pub fn is_discovered(peer_connected: bool, gossip_joined: bool) -> (discovered: bool)
    ensures
        discovered == (peer_connected && gossip_joined),
{
    peer_connected && gossip_joined
}

// ---------------------------------------------------------------------------
// Laws
// ---------------------------------------------------------------------------
/// The distributed hash table stands in for the bootstrap server where both may be
/// used and the server did not answer or named nobody; a strategy that excludes one
/// of them never uses it.
pub proof fn law_dht_is_a_fallback(setup: Setup)
    ensures
        setup.mode == DiscoveryMode::BootstrapDhtFallback ==> asks_bootstrap(setup.mode) && (
        searches_dht(setup) <==> !setup.answered || setup.via_bootstrap.len() == 0),
        setup.mode == DiscoveryMode::BootstrapOnly ==> asks_bootstrap(setup.mode) && !searches_dht(
            setup,
        ) && !uses_dht(setup.mode),
        setup.mode == DiscoveryMode::DhtOnly ==> !asks_bootstrap(setup.mode) && uses_dht(
            setup.mode,
        ) && (!setup.answered ==> searches_dht(setup)),
{
}

/// The session is joined without waiting for the distributed hash table: right after
/// the attempt to ask the bootstrap server, whether it answered or not, or at once
/// where the server is not asked.
pub proof fn law_joins_right_after_bootstrap(
    mode: DiscoveryMode,
    topic: Seq<char>,
    me: Seq<u8>,
    event: SetupEvent,
)
    ensures
        ({
            let (setup, first) = setup_started(mode, topic, me);
            let (next, second) = setup_stepped(setup, event);
            if asks_bootstrap(mode) {
                first == SetupStep::AskBootstrap && (setup_expects(setup.phase, event)
                    ==> second == SetupStep::Join(next.session))
            } else {
                first == SetupStep::Join(topic_hash(topic))
            }
        }),
{
}

/// The distributed hash table is searched in the background only: after the session
/// was joined, and at most once before discovery goes on from time to time. Only if
/// the search finds another session, that one is joined.
pub proof fn law_searches_in_background(setup: Setup, event: SetupEvent)
    requires
        setup_expects(setup.phase, event),
    ensures
        setup_stepped(setup, event).1 is SearchDht <==> event is Joined && setup.phase
            == SetupPhase::Joining && searches_dht(setup),
        setup_stepped(setup, event).1 is SearchDht ==> setup_stepped(setup, event).0.phase
            == SetupPhase::Searching,
        setup.phase == SetupPhase::Searching ==> {
            ||| setup_stepped(setup, event).1 == SetupStep::Refresh
            ||| setup_stepped(setup, event).1 == SetupStep::Join(
                setup_stepped(setup, event).0.session,
            ) && setup_stepped(setup, event).0.session != setup.session
        },
{
}

/// How many events are possible before discovery is set up.
pub open spec fn setup_budget(phase: SetupPhase) -> int {
    match phase {
        SetupPhase::Asking => 4,
        SetupPhase::Joining => 3,
        SetupPhase::Searching => 2,
        SetupPhase::Switching => 1,
        SetupPhase::Settled => 0,
    }
}

/// Setting discovery up comes to an end: every event leaves fewer that are possible.
pub proof fn law_setup_ends(setup: Setup, event: SetupEvent)
    requires
        setup_expects(setup.phase, event),
    ensures
        0 <= setup_budget(setup_stepped(setup, event).0.phase) < setup_budget(setup.phase),
        setup_stepped(setup, event).1 == SetupStep::Refresh <==> setup_budget(
            setup_stepped(setup, event).0.phase,
        ) == 0,
{
}

/// Peers meet: when a peer has announced itself for a game and is still remembered,
/// another peer that asks the bootstrap server for the game finds it.
pub proof fn law_peers_meet(
    st: server::Registry,
    config: server::ServerConfig,
    game: Seq<char>,
    k: int,
    asking: Seq<char>,
    session: Option<Seq<char>>,
    addr: Option<Seq<char>>,
    now: u128,
    response: BootstrapResponse,
    waiting: Seq<u8>,
    me: Seq<u8>,
)
    requires
        server::registry_inv(st),
        server::well_formed(game, asking, session, addr),
        st.games.contains_key(game),
        0 <= k < st.games[game].len(),
        server::is_fresh(st.games[game][k], now, server::ttl_nanos(config)),
        st.games[game][k].id != asking,
        node_id_of(st.games[game][k].id) == Ok::<Seq<u8>, Seq<char>>(waiting),
        crypto::valid_endpoint_id(waiting),
        waiting != me,
        server::bootstrap_handled(st, config, game, asking, session, addr, now).1
            matches server::Reply::Found { peers, .. } && peers == server::texts(response.peers@),
    ensures
        has_id(peers_collected(response, me), waiting),
{
    server::law_waiting_peer_is_found(st, config, game, k, asking, session, addr, now);
    let named = server::texts(response.peers@);
    let i = choose|i: int| 0 <= i < named.len() && named[i] == st.games[game][k].id;
    assert(response.peers@[i]@ == named[i]);
    law_named_peers_are_found(response, me, i);
}

proof fn lemma_addr_found(encoded: Seq<Seq<char>>, me: Seq<u8>, k: int, addr: Addr)
    requires
        0 <= k < encoded.len(),
        addr_of(encoded[k]) == Some(addr),
        addr.id != me,
    ensures
        peers_from_addrs(encoded, me).contains(addr),
    decreases encoded.len(),
{
    let before = peers_from_addrs(encoded.drop_last(), me);
    let all = peers_from_addrs(encoded, me);
    if k < encoded.len() - 1 {
        lemma_addr_found(encoded.drop_last(), me, k, addr);
        let i = choose|i: int| 0 <= i < before.len() && before[i] == addr;
        assert(all[i] == addr);
    } else {
        assert(all[before.len() as int] == addr);
    }
}

proof fn lemma_with_ids_keeps(found: Seq<Addr>, encoded: Seq<Seq<char>>, me: Seq<u8>, addr: Addr)
    requires
        found.contains(addr),
    ensures
        peers_with_ids(found, encoded, me).contains(addr),
    decreases encoded.len(),
{
    if encoded.len() > 0 {
        lemma_with_ids_keeps(found, encoded.drop_last(), me, addr);
        let before = peers_with_ids(found, encoded.drop_last(), me);
        let i = choose|i: int| 0 <= i < before.len() && before[i] == addr;
        assert(peers_with_ids(found, encoded, me)[i] == addr);
    }
}

/// Full addresses are used: an address that the bootstrap server passes on is among
/// the peers found, just as it was announced.
pub proof fn law_full_addresses_are_used(
    response: BootstrapResponse,
    me: Seq<u8>,
    k: int,
    addr: Addr,
)
    requires
        0 <= k < response.peer_addrs@.len(),
        addr_of(response.peer_addrs@[k]@) == Some(addr),
        addr.id != me,
    ensures
        peers_collected(response, me).contains(addr),
{
    let encoded = server::texts(response.peer_addrs@);
    lemma_addr_found(encoded, me, k, addr);
    lemma_with_ids_keeps(
        peers_from_addrs(encoded, me),
        server::texts(response.peers@),
        me,
        addr,
    );
}

/// A relay server is only a stopgap: an address that says how to reach the peer is
/// dialled as it is.
pub proof fn law_known_addresses_unchanged(addr: Addr, relay: Option<Seq<char>>)
    ensures
        !addr_empty(addr) ==> with_fallback(addr, relay) == addr,
        relay is Some ==> !addr_empty(with_fallback(addr, relay)),
        with_fallback(addr, relay).id == addr.id,
{
}

/// The number that hexadecimal digits stand for.
pub open spec fn hex_number(text: Seq<char>) -> int
    decreases text.len(),
{
    if text.len() == 0 {
        0
    } else {
        let c = text.last() as int;
        16 * hex_number(text.drop_last()) + (if c < 58 {
            c - 48
        } else {
            c - 87
        })
    }
}

/// The name of a game is its seed in hexadecimal, with leading zeros.
pub proof fn law_seed_text_value(seed: u32)
    ensures
        seed_text(seed).len() == 8,
        hex_number(seed_text(seed)) == seed,
{
    let b = text::u32_be(seed);
    text::law_u32_be_value(0, 0, 0, 0, seed);
    let t = seed_text(seed);
    encoding::law_hex_digits(b, 0);
    encoding::law_hex_digits(b, 1);
    encoding::law_hex_digits(b, 2);
    encoding::law_hex_digits(b, 3);
    lemma_two_digits(t.take(2), b[0]);
    lemma_two_digits(t.take(4), b[1]);
    lemma_two_digits(t.take(6), b[2]);
    lemma_two_digits(t, b[3]);
    assert(t.take(2).take(0) =~= Seq::empty());
    assert(t.take(4).take(2) =~= t.take(2));
    assert(t.take(6).take(4) =~= t.take(4));
}

proof fn lemma_two_digits(t: Seq<char>, b: u8)
    requires
        t.len() >= 2,
        t[t.len() - 2] as int == encoding::digit_code(b as int / 16),
        t[t.len() - 1] as int == encoding::digit_code(b as int % 16),
    ensures
        hex_number(t) == 256 * hex_number(t.take(t.len() - 2)) + b,
{
    reveal_with_fuel(hex_number, 3);
    assert(t.drop_last().drop_last() =~= t.take(t.len() - 2));
    assert(0 <= b as int / 16 < 16 && 0 <= b as int % 16 < 16);
    assert(b as int == 16 * (b as int / 16) + b as int % 16);
}

/// What a peer asks the bootstrap server for: the game's hash in hexadecimal as the path,
/// and as parameters the own identity and, where there are any, the session's hash in
/// hexadecimal and the own address, each in the alphabet that is safe in a URL.
pub proof fn law_announcement_url(
    url: Seq<char>,
    topic: Seq<char>,
    id: Seq<u8>,
    session: Seq<u8>,
    wire: Seq<u8>,
)
    ensures
        ({
            let hash = crypto::blake3_keyed_hash_of(
                crypto::blake3_hash_of(vstd::utf8::encode_utf8("ssp-topic"@)),
                vstd::utf8::encode_utf8(topic),
            );
            let plain = url + ("/games/"@ + (encoding::hex_text(hash) + ("?id="@
                + encoding::base64_url_text(id))));
            let named = "&session="@ + encoding::hex_text(session);
            let placed = "&addr="@ + encoding::base64_url_text(wire);
            &&& announce_text(url, topic, id, None, None) == plain
            &&& announce_text(url, topic, id, Some(session), None) == plain + named
            &&& announce_text(url, topic, id, None, Some(wire)) == plain + placed
            &&& announce_text(url, topic, id, Some(session), Some(wire)) == plain + named + placed
        }),
{
    let hash = topic_hash(topic);
    let plain = url + ("/games/"@ + (encoding::hex_text(hash) + ("?id="@
        + encoding::base64_url_text(id))));
    let named = "&session="@ + encoding::hex_text(session);
    let placed = "&addr="@ + encoding::base64_url_text(wire);
    assert(announce_text(url, topic, id, None, None) =~= plain);
    assert(announce_text(url, topic, id, Some(session), None) =~= plain + named);
    assert(announce_text(url, topic, id, None, Some(wire)) =~= plain + placed);
    assert(announce_text(url, topic, id, Some(session), Some(wire)) =~= plain + named + placed);
}

/// Which texts are identities: those that decode to 32 bytes; for others the reason is
/// given in words.
pub proof fn law_identity_texts(encoded: Seq<char>)
    ensures
        encoding::base64_url_decoded(encoded) matches Ok(bytes) ==> node_id_of(encoded) == (
        if bytes.len() == 32 {
            Ok::<Seq<u8>, Seq<char>>(bytes)
        } else {
            Err("Invalid node ID length"@)
        }),
        encoding::base64_url_decoded(encoded) matches Err(e) ==> node_id_of(encoded) == Err::<
            Seq<u8>,
            Seq<char>,
        >("Base64 decode failed: "@ + e),
{
}

/// An address that a text stands for keeps the bytes of the text, and says how to reach the
/// peer unless it is empty; it holds no relay server of ours.
pub proof fn law_address_texts(encoded: Seq<char>, wire: Seq<u8>, id: Seq<u8>, empty: bool)
    requires
        encoding::base64_url_decoded(encoded) == Ok::<Seq<u8>, Seq<char>>(wire),
    ensures
        encoding::endpoint_addr_of(wire) == Some((id, empty)) ==> addr_of(encoded) == Some(
            Addr { id, wire: Some(wire), known: !empty, relay: None },
        ),
        encoding::endpoint_addr_of(wire) is None ==> addr_of(encoded) is None,
{
}

/// The other peer that a full address names.
pub open spec fn other_addr(me: Seq<u8>) -> spec_fn(Seq<char>) -> Option<Addr> {
    |t: Seq<char>|
        match addr_of(t) {
            Some(addr) => if addr.id == me {
                None
            } else {
                Some(addr)
            },
            None => None,
        }
}

proof fn lemma_from_addrs(encoded: Seq<Seq<char>>, me: Seq<u8>)
    ensures
        peers_from_addrs(encoded, me) == encoded.filter_map(other_addr(me)),
    decreases encoded.len(),
{
    if encoded.len() > 0 {
        lemma_from_addrs(encoded.drop_last(), me);
        assert(peers_from_addrs(encoded, me) =~= encoded.filter_map(other_addr(me)));
    } else {
        assert(peers_from_addrs(encoded, me) =~= encoded.filter_map(other_addr(me)));
    }
}

proof fn lemma_with_ids(found: Seq<Addr>, encoded: Seq<Seq<char>>, me: Seq<u8>)
    ensures
        ({
            let all = peers_with_ids(found, encoded, me);
            &&& found.len() <= all.len()
            &&& all.subrange(0, found.len() as int) == found
            &&& forall|i: int|
                found.len() <= i < all.len() ==> named_once(all, #[trigger] all[i], i, encoded, me)
        }),
    decreases encoded.len(),
{
    let all = peers_with_ids(found, encoded, me);
    if encoded.len() > 0 {
        let rest = encoded.drop_last();
        let before = peers_with_ids(found, rest, me);
        lemma_with_ids(found, rest, me);
        assert(all.subrange(0, found.len() as int) =~= before.subrange(0, found.len() as int));
        assert forall|i: int| found.len() <= i < all.len() implies named_once(
            all,
            #[trigger] all[i],
            i,
            encoded,
            me,
        ) by {
            if i < before.len() {
                assert(all[i] == before[i]);
                assert(named_once(before, before[i], i, rest, me));
                let k = choose|k: int|
                    0 <= k < rest.len() && node_id_of(#[trigger] rest[k]) == Ok::<
                        Seq<u8>,
                        Seq<char>,
                    >(before[i].id);
                assert(encoded[k] == rest[k]);
                assert forall|j: int| 0 <= j < i implies (#[trigger] all[j]).id != all[i].id by {
                    assert(all[j] == before[j]);
                }
            } else {
                assert(encoded[encoded.len() - 1] == encoded.last());
                assert forall|j: int| 0 <= j < i implies (#[trigger] all[j]).id != all[i].id by {
                    assert(all[j] == before[j]);
                }
            }
        }
    } else {
        assert(all.subrange(0, found.len() as int) =~= found);
    }
}

/// Whether a peer at a place in a list was named by a valid identity alone, is not the
/// asking peer, and does not stand before that place.
pub open spec fn named_once(
    all: Seq<Addr>,
    addr: Addr,
    i: int,
    encoded: Seq<Seq<char>>,
    me: Seq<u8>,
) -> bool {
    &&& addr == (Addr { id: addr.id, wire: None, known: false, relay: None })
    &&& crypto::valid_endpoint_id(addr.id)
    &&& addr.id != me
    &&& exists|k: int|
        0 <= k < encoded.len() && node_id_of(#[trigger] encoded[k]) == Ok::<Seq<u8>, Seq<char>>(
            addr.id,
        )
    &&& forall|j: int| 0 <= j < i ==> (#[trigger] all[j]).id != addr.id
}

/// Whom an answer of the bootstrap server names: first all other peers with full addresses,
/// in the order of the answer; then each other peer that is named by a valid identity and
/// was not named before, once. Nobody else is found.
pub proof fn law_found_peers_were_named(response: BootstrapResponse, me: Seq<u8>)
    ensures
        ({
            let all = peers_collected(response, me);
            let full = server::texts(response.peer_addrs@).filter_map(other_addr(me));
            &&& full.len() <= all.len()
            &&& all.subrange(0, full.len() as int) == full
            &&& forall|i: int|
                full.len() <= i < all.len() ==> named_once(
                    all,
                    #[trigger] all[i],
                    i,
                    server::texts(response.peers@),
                    me,
                )
        }),
{
    lemma_from_addrs(server::texts(response.peer_addrs@), me);
    lemma_with_ids(
        peers_from_addrs(server::texts(response.peer_addrs@), me),
        server::texts(response.peers@),
        me,
    );
}

/// The records of valid identities other than the own one.
pub open spec fn other_records(records: Seq<DhtRecordContent>, me: Seq<u8>) -> Seq<DhtRecordContent> {
    records.filter(
        |r: DhtRecordContent| crypto::valid_endpoint_id(r.id@) && r.id@ != me,
    )
}

/// What records of the distributed hash table tell: the peers of all valid records but the
/// own, by their identities and in order, and the session of the first of them.
pub proof fn law_records_are_used(records: Seq<DhtRecordContent>, me: Seq<u8>)
    ensures
        ({
            let others = other_records(records, me);
            let (peers, session) = records_scanned(records, me);
            &&& peers == Seq::new(
                others.len(),
                |i: int| (Addr { id: others[i].id@, wire: None, known: false, relay: None }),
            )
            &&& session == (if others.len() > 0 {
                Some(others[0].session_seed@)
            } else {
                None::<Seq<u8>>
            })
        }),
    decreases records.len(),
{
    reveal(Seq::filter);
    let others = other_records(records, me);
    let (peers, session) = records_scanned(records, me);
    if records.len() > 0 {
        law_records_are_used(records.drop_last(), me);
    }
    assert(peers =~= Seq::new(
        others.len(),
        |i: int| (Addr { id: others[i].id@, wire: None, known: false, relay: None }),
    ));
}

/// Whom a refresh dials: every peer that is not known to fail, in order; through the relay
/// server if its address does not say how to reach it and it has no relay server yet.
pub proof fn law_refresh_skips_failed(
    peers: Seq<Addr>,
    failed: Set<Seq<u8>>,
    relay: Option<Seq<char>>,
)
    ensures
        ({
            let left = peers.filter(|a: Addr| !failed.contains(a.id));
            refreshed(peers, failed, relay) == Seq::new(
                left.len(),
                |i: int|
                    if !left[i].known && left[i].relay is None {
                        Addr { relay, ..left[i] }
                    } else {
                        left[i]
                    },
            )
        }),
    decreases peers.len(),
{
    reveal(Seq::filter);
    let left = peers.filter(|a: Addr| !failed.contains(a.id));
    if peers.len() > 0 {
        law_refresh_skips_failed(peers.drop_last(), failed, relay);
    }
    assert(refreshed(peers, failed, relay) =~= Seq::new(
        left.len(),
        |i: int|
            if !left[i].known && left[i].relay is None {
                Addr { relay, ..left[i] }
            } else {
                left[i]
            },
    ));
}

/// Which session an answer of the bootstrap server leads to: the one whose 32 bytes it names
/// in hexadecimal; any other text leaves the session as it was.
pub proof fn law_named_session_is_joined(session: Seq<u8>, hash: Seq<u8>, named: Seq<char>)
    requires
        hash.len() == 32,
    ensures
        adopted_session(session, encoding::hex_text(hash)) == hash,
        named.len() != 64 ==> adopted_session(session, named) == session,
        (exists|i: int| 0 <= i < named.len() && !encoding::is_hex_digit(#[trigger] named[i]))
            ==> adopted_session(session, named) == session,
{
    encoding::law_hex_roundtrip(hash);
}

/// What is dialled first: the peers of the bootstrap server, those without an address
/// through the relay server, and behind them those of the distributed hash table as they
/// are.
pub proof fn law_candidates_in_order(setup: Setup, relay: Option<Seq<char>>, i: int)
    ensures
        ({
            let named = setup.via_bootstrap;
            let all = first_candidates(setup, relay);
            &&& all.len() == named.len() + setup.via_dht.len()
            &&& 0 <= i < named.len() ==> all[i] == (if !named[i].known && named[i].relay is None {
                Addr { relay, ..named[i] }
            } else {
                named[i]
            })
            &&& named.len() <= i < all.len() ==> all[i] == setup.via_dht[i - named.len()]
        }),
{
}

/// How discovery is set up, step by step. An answer of the bootstrap server is remembered
/// with its peers, and the session that it leads to is joined; a failure changes nothing,
/// and the session so far is joined. Once that is joined, the own record is published and
/// the distributed hash table searched if it may be used and the server named nobody. The
/// peers of a search are kept, and the session of the first is joined where it is another.
pub proof fn law_setup_step_by_step(setup: Setup, response: BootstrapResponse, records: Vec<
    DhtRecordContent,
>)
    ensures
        ({
            let (next, step) = setup_stepped(setup, SetupEvent::BootstrapAnswered(response));
            let session = adopted_session(setup.session, response.session@);
            &&& step == SetupStep::Join(session)
            &&& next.session == session
            &&& next.via_bootstrap == peers_collected(response, setup.me)
            &&& next.via_dht == setup.via_dht
            &&& next.answered
            &&& next.phase == SetupPhase::Joining
            &&& next.me == setup.me && next.mode == setup.mode
        }),
        setup_stepped(setup, SetupEvent::BootstrapFailed) == (
            Setup { phase: SetupPhase::Joining, ..setup },
            SetupStep::Join(setup.session),
        ),
        ({
            let (next, step) = setup_stepped(setup, SetupEvent::Joined);
            let searches = setup.phase == SetupPhase::Joining && setup.mode
                != DiscoveryMode::BootstrapOnly && (!setup.answered || setup.via_bootstrap.len()
                == 0);
            &&& next == (Setup { phase: next.phase, ..setup })
            &&& searches ==> next.phase == SetupPhase::Searching && step == SetupStep::SearchDht {
                id: setup.me,
                session: setup.session,
            }
            &&& !searches ==> next.phase == SetupPhase::Settled && step == SetupStep::Refresh
        }),
        ({
            let (next, step) = setup_stepped(setup, SetupEvent::DhtSearched(records));
            let others = other_records(records@, setup.me);
            let moves = others.len() > 0 && others[0].session_seed@ != setup.session;
            &&& next.via_dht == records_scanned(records@, setup.me).0
            &&& next.via_bootstrap == setup.via_bootstrap
            &&& next.answered == setup.answered
            &&& next.me == setup.me && next.mode == setup.mode
            &&& moves ==> next.session == others[0].session_seed@ && next.phase
                == SetupPhase::Switching && step == SetupStep::Join(others[0].session_seed@)
            &&& !moves ==> next.session == setup.session && next.phase == SetupPhase::Settled
                && step == SetupStep::Refresh
        }),
{
    law_records_are_used(records@, setup.me);
}

/// How discovery starts: with nobody known, for the session of the game; the bootstrap
/// server is asked first unless only the distributed hash table is used.
pub proof fn law_setup_begins(mode: DiscoveryMode, topic: Seq<char>, me: Seq<u8>)
    ensures
        ({
            let (setup, step) = setup_started(mode, topic, me);
            &&& setup.mode == mode && setup.me == me
            &&& setup.session == topic_hash(topic)
            &&& setup.via_bootstrap.len() == 0 && setup.via_dht.len() == 0
            &&& !setup.answered
            &&& mode != DiscoveryMode::DhtOnly ==> step == SetupStep::AskBootstrap && setup.phase
                == SetupPhase::Asking
            &&& mode == DiscoveryMode::DhtOnly ==> step == SetupStep::Join(topic_hash(topic))
                && setup.phase == SetupPhase::Joining
        }),
{
}

/// A dial after a number of failed handshakes, and what is done then.
pub open spec fn dial_failed(d: Dial, n: nat) -> (Dial, Dialled)
    decreases n,
{
    if n <= 1 {
        dial_stepped(d, DialEvent::HandshakeFailed)
    } else {
        dial_stepped(dial_failed(d, (n - 1) as nat).0, DialEvent::HandshakeFailed)
    }
}

/// In which order a peer is dialled: after its own address through each of the fallback
/// relay servers in their order, if a relay server was configured; then, or at once if none
/// was, it is given up.
pub proof fn law_dial_order(d: Dial, n: nat)
    requires
        d.tried == 0,
        1 <= n <= d.fallbacks.len() + 1,
        !d.has_relay ==> n == 1,
    ensures
        d.has_relay && n <= d.fallbacks.len() ==> dial_failed(d, n) == (
            Dial { tried: n as int, phase: DialPhase::Shaking, ..d },
            Dialled::Handshake(
                Addr {
                    id: d.peer,
                    wire: None,
                    known: false,
                    relay: Some(d.fallbacks[n - 1]),
                },
            ),
        ),
        !d.has_relay || n == d.fallbacks.len() + 1 ==> dial_failed(d, n).1 is GiveUp && dial_failed(
            d,
            n,
        ).0.phase == DialPhase::Finished,
    decreases n,
{
    if n > 1 {
        law_dial_order(d, (n - 1) as nat);
    }
}

/// What follows a handshake: the connection is handed to gossip, and if gossip takes it, the
/// peer is connected. If not, the peer is given up where it was reached at its own address,
/// and else dialled on as after a failed handshake.
pub proof fn law_gossip_decides(d: Dial)
    ensures
        dial_stepped(d, DialEvent::HandshakeDone) == (
            Dial { phase: DialPhase::Handing, ..d },
            Dialled::HandToGossip,
        ),
        dial_stepped(d, DialEvent::GossipDone) == (
            Dial { phase: DialPhase::Finished, ..d },
            Dialled::Connected,
        ),
        d.tried == 0 ==> dial_stepped(d, DialEvent::GossipFailed) == (
            Dial { phase: DialPhase::Finished, ..d },
            Dialled::GiveUp,
        ),
        d.tried != 0 ==> dial_stepped(d, DialEvent::GossipFailed) == dial_stepped(
            d,
            DialEvent::HandshakeFailed,
        ),
{
}

/// How far back records are looked at: eight minutes, or to the first minute of all.
pub proof fn law_minutes_looked_at(minute: u64)
    ensures
        minute >= 8 ==> earliest_minute(minute) == minute - 8,
        minute < 8 ==> earliest_minute(minute) == 0,
{
}

} // verus!
