//! Fitting messages into packets: splitting one that is too long into signed
//! fragments, and putting received fragments together again.

use std::collections::HashMap;

use vstd::prelude::*;
use vstd::slice::*;

use crate::crypto::{self, EndpointId};
use crate::encoding;
use crate::msg::{self, MsgBody, SLPMsg, SLPMsgData, SignedMsg};

verus! {

broadcast use vstd::std_specs::hash::group_hash_axioms;

/// Bytes of a packet that are left for the fields around a fragment's payload.
pub const CHUNK_RESERVE: usize = 512;

/// Most fragments that a message can be split into.
pub const MAX_CHUNKS: usize = 65535;

/// Views of the byte vectors in a sequence.
pub open spec fn views(v: Seq<Vec<u8>>) -> Seq<Seq<u8>> {
    Seq::new(v.len(), |i: int| v[i]@)
}

// ---------------------------------------------------------------------------
// Splitting
// ---------------------------------------------------------------------------
/// Bytes of the whole message that each fragment carries.
pub open spec fn chunk_size(max_packet_length: int) -> int {
    if max_packet_length > CHUNK_RESERVE {
        max_packet_length - CHUNK_RESERVE
    } else {
        1
    }
}

/// How many fragments of `size` bytes cover `len` bytes.
pub open spec fn chunk_count(len: int, size: int) -> int {
    if len % size == 0 {
        len / size
    } else {
        len / size + 1
    }
}

/// The part of a message that the `i`-th fragment carries.
pub open spec fn chunk_payload(bytes: Seq<u8>, size: int, i: int) -> Seq<u8> {
    bytes.subrange(
        i * size,
        if (i + 1) * size <= bytes.len() {
            (i + 1) * size
        } else {
            bytes.len() as int
        },
    )
}

/// The body of the `i`-th fragment of a message.
pub open spec fn chunk_body(from: Seq<u8>, id: u64, bytes: Seq<u8>, size: int, i: int) -> MsgBody {
    MsgBody::Chunk {
        from,
        id,
        index: i as u16,
        total: chunk_count(bytes.len() as int, size) as u16,
        payload: chunk_payload(bytes, size, i),
    }
}

/// The packets that carry a message: the message itself where it fits into one,
/// else its fragments. There are none for an empty message, nor where the
/// message would need too many fragments or a fragment of one byte would not
/// fit.
pub open spec fn packets_of(
    bytes: Seq<u8>,
    max_packet_length: int,
    from: Seq<u8>,
    id: u64,
    secret: Seq<u8>,
) -> Seq<Seq<u8>> {
    let size = chunk_size(max_packet_length);
    let count = chunk_count(bytes.len() as int, size);
    if bytes.len() == 0 {
        Seq::empty()
    } else if bytes.len() <= max_packet_length {
        seq![bytes]
    } else if count > MAX_CHUNKS || size + 128 > max_packet_length {
        Seq::empty()
    } else {
        Seq::new(
            count as nat,
            |i: int|
                msg::msg_bytes(msg::msg_signed(chunk_body(from, id, bytes, size, i), secret)),
        )
    }
}

/// Whether a packet is a message with the given body, signed by `from`.
pub open spec fn carries(packet: Seq<u8>, body: MsgBody, from: Seq<u8>) -> bool {
    msg::msg_parsed(packet) matches Some(m) && m.body == body && msg::msg_verifies(m, from)
}

/// Whether packets are the signed fragments of a message, in order.
pub open spec fn fragments_of(
    packets: Seq<Seq<u8>>,
    bytes: Seq<u8>,
    size: int,
    from: Seq<u8>,
    id: u64,
) -> bool {
    &&& packets.len() == chunk_count(bytes.len() as int, size)
    &&& 1 <= packets.len() <= MAX_CHUNKS
    &&& forall|i: int|
        0 <= i < packets.len() ==> carries(
            #[trigger] packets[i],
            chunk_body(from, id, bytes, size, i),
            from,
        )
}

proof fn lemma_chunk_bounds(len: int, size: int, i: int)
    requires
        len > 0,
        size > 0,
        0 <= i < chunk_count(len, size),
    ensures
        0 <= i * size < len,
        (i + 1) * size == i * size + size,
        i + 1 < chunk_count(len, size) ==> (i + 1) * size < len,
        i + 1 == chunk_count(len, size) ==> (i + 1) * size >= len,
{
    let q = len / size;
    let r = len % size;
    assert(len == q * size + r && 0 <= r < size) by (nonlinear_arith)
        requires
            size > 0,
            q == len / size,
            r == len % size,
    ;
    assert((i + 1) * size == i * size + size) by (nonlinear_arith);
    assert(0 <= i * size) by (nonlinear_arith)
        requires
            i >= 0,
            size > 0,
    ;
    if i < q {
        assert(i * size + size <= q * size) by (nonlinear_arith)
            requires
                i + 1 <= q,
                size > 0,
        ;
        if i + 1 < q {
            assert((i + 1) * size + size <= q * size) by (nonlinear_arith)
                requires
                    i + 2 <= q,
                    size > 0,
            ;
        }
    }
}

/// Splits a message into the packets that carry it. A message that fits is sent
/// as it is; otherwise each packet is a fragment, signed with `secret_key`, and
/// no packet is longer than `max_packet_length`.
pub fn packetize(
    bytes: &Vec<u8>,
    max_packet_length: usize,
    from: &EndpointId,
    id: u64,
    secret_key: &[u8; 32],
) -> (packets: Vec<Vec<u8>>)
    ensures
        views(packets@) == packets_of(
            bytes@,
            max_packet_length as int,
            from@,
            id,
            secret_key@,
        ),
        forall|i: int| 0 <= i < packets@.len() ==> (#[trigger] packets@[i])@.len()
            <= max_packet_length,
        bytes@.len() > max_packet_length && packets@.len() > 0 && from@ == crypto::public_key_of(
            secret_key@,
        ) && crypto::valid_endpoint_id(from@) ==> fragments_of(
            views(packets@),
            bytes@,
            chunk_size(max_packet_length as int),
            from@,
            id,
        ),
{
    let mut packets: Vec<Vec<u8>> = Vec::new();
    let len: usize = bytes.len();
    if len == 0 {
        assert(views(packets@) =~= Seq::empty());
        return packets;
    }
    if len <= max_packet_length {
        let mut whole: Vec<u8> = Vec::new();
        whole.extend_from_slice(bytes.as_slice());
        assert(whole@ =~= bytes@);
        packets.push(whole);
        assert(views(packets@) =~= seq![bytes@]);
        return packets;
    }
    let size: usize = if max_packet_length > CHUNK_RESERVE {
        max_packet_length - CHUNK_RESERVE
    } else {
        1
    };
    let count: usize = if len % size == 0 {
        len / size
    } else {
        assert(len / size < len) by (nonlinear_arith)
            requires
                size > 0,
                len > 0,
                len % size != 0,
        ;
        len / size + 1
    };
    if count > MAX_CHUNKS || max_packet_length < 128 || size > max_packet_length - 128 {
        assert(views(packets@) =~= Seq::empty());
        return packets;
    }
    let total: u16 = count as u16;
    let mut start: usize = 0;
    let mut i: usize = 0;
    let ghost signed = from@ == crypto::public_key_of(secret_key@) && crypto::valid_endpoint_id(
        from@,
    );
    assert(0 * size == 0) by (nonlinear_arith);
    while i < count
        invariant
            0 < len == bytes@.len(),
            0 < size,
            size == chunk_size(max_packet_length as int),
            size + 128 <= max_packet_length,
            count == chunk_count(len as int, size as int),
            count <= MAX_CHUNKS,
            total == count,
            i <= count,
            i < count ==> start == i * size,
            packets@.len() == i,
            signed == (from@ == crypto::public_key_of(secret_key@) && crypto::valid_endpoint_id(
                from@,
            )),
            forall|j: int|
                0 <= j < i ==> (#[trigger] packets@[j])@ == msg::msg_bytes(
                    msg::msg_signed(
                        chunk_body(from@, id, bytes@, size as int, j),
                        secret_key@,
                    ),
                ),
            forall|j: int| 0 <= j < i ==> (#[trigger] packets@[j])@.len() <= max_packet_length,
            forall|j: int|
                0 <= j < i && signed ==> carries(
                    (#[trigger] packets@[j])@,
                    chunk_body(from@, id, bytes@, size as int, j),
                    from@,
                ),
        decreases count - i,
    {
        proof {
            lemma_chunk_bounds(len as int, size as int, i as int);
        }
        let end: usize = if len - start > size {
            start + size
        } else {
            len
        };
        let mut payload: Vec<u8> = Vec::new();
        payload.extend_from_slice(slice_subrange(bytes.as_slice(), start, end));
        assert(payload@ =~= chunk_payload(bytes@, size as int, i as int));
        let body = SLPMsgData::Chunk { from: *from, id, index: i as u16, total, payload };
        assert(body@ == chunk_body(from@, id, bytes@, size as int, i as int));
        let fragment = SLPMsg::new_signed(body, secret_key);
        let packet = fragment.to_vec();
        proof {
            msg::law_chunk_length(fragment@);
            if signed {
                msg::law_msg_roundtrip(fragment@, Seq::empty());
                assert(packet@ + Seq::<u8>::empty() =~= packet@);
            }
        }
        packets.push(packet);
        start = end;
        i += 1;
    }
    assert(views(packets@) =~= packets_of(
        bytes@,
        max_packet_length as int,
        from@,
        id,
        secret_key@,
    ));
    packets
}

// ---------------------------------------------------------------------------
// Reassembly
// ---------------------------------------------------------------------------
/// Fragments received so far of one message.
pub struct ChunkAssembly {
    from: EndpointId,
    id: u64,
    total: u16,
    parts: HashMap<u16, Vec<u8>>,
}

/// Mathematical value of a partly received message.
#[verifier::ext_equal]
pub struct Assembly {
    /// How many fragments the message has.
    pub total: u16,
    /// The payloads received so far, by their index.
    pub parts: Map<u16, Seq<u8>>,
}

/// Partly received messages, by sender and message identifier.
pub type Assemblies = Map<(Seq<u8>, u64), Assembly>;

/// The first `n` payloads one after another; missing ones are skipped.
pub open spec fn joined(parts: Map<u16, Seq<u8>>, n: int) -> Seq<u8>
    decreases n,
{
    if n <= 0 {
        Seq::empty()
    } else if parts.contains_key((n - 1) as u16) {
        joined(parts, n - 1) + parts[(n - 1) as u16]
    } else {
        joined(parts, n - 1)
    }
}

/// What is known of a message after one more fragment of it. The first fragment
/// decides how many there are.
pub open spec fn assembly_with(
    assemblies: Assemblies,
    key: (Seq<u8>, u64),
    index: u16,
    total: u16,
    payload: Seq<u8>,
) -> Assembly {
    if assemblies.contains_key(key) {
        Assembly {
            total: assemblies[key].total,
            parts: assemblies[key].parts.insert(index, payload),
        }
    } else {
        Assembly { total, parts: Map::empty().insert(index, payload) }
    }
}

/// What receiving some packet content does: the partly received messages
/// afterwards, and the message that is handed on, if any.
///
/// A fragment or a game announcement counts only with a signature of the sender
/// that it names. The last missing fragment completes its message, which must in
/// turn carry a signature of that sender.
pub open spec fn received(assemblies: Assemblies, content: Seq<u8>) -> (
    Assemblies,
    Option<SignedMsg>,
) {
    match msg::msg_parsed(content) {
        None => (assemblies, None),
        Some(m) => match m.body {
            MsgBody::Data { .. } => (assemblies, Some(m)),
            MsgBody::NewGame { from, .. } => if msg::msg_verifies(m, from) {
                (assemblies, Some(m))
            } else {
                (assemblies, None)
            },
            MsgBody::Chunk { from, id, index, total, payload } => if msg::msg_verifies(m, from) {
                let grown = assembly_with(assemblies, (from, id), index, total, payload);
                if grown.parts.len() == grown.total {
                    let whole = msg::msg_parsed(joined(grown.parts, grown.total as int));
                    (
                        assemblies.remove((from, id)),
                        if whole is Some && msg::msg_verifies(whole.unwrap(), from) {
                            whole
                        } else {
                            None
                        },
                    )
                } else {
                    (assemblies.insert((from, id), grown), None)
                }
            } else {
                (assemblies, None)
            },
        },
    }
}

/// Receives gossip packets and hands on the messages that they make up.
pub struct ChunkAssembler {
    pending: Vec<ChunkAssembly>,
}

impl ChunkAssembly {
    /// Sender and message identifier.
    pub closed spec fn key(self) -> (Seq<u8>, u64) {
        (self.from@, self.id)
    }

    /// The fragments received so far.
    pub closed spec fn value(self) -> Assembly {
        Assembly { total: self.total, parts: self.parts@.map_values(|v: Vec<u8>| v@) }
    }
}

impl ChunkAssembler {
    spec fn index_of(self, key: (Seq<u8>, u64)) -> int {
        choose|i: int| 0 <= i < self.pending@.len() && (#[trigger] self.pending@[i]).key() == key
    }

    /// No message is tracked twice.
    pub closed spec fn wf(self) -> bool {
        forall|i: int, j: int|
            0 <= i < j < self.pending@.len() ==> (#[trigger] self.pending@[i]).key() != (
            #[trigger] self.pending@[j]).key()
    }
}

impl View for ChunkAssembler {
    type V = Assemblies;

    closed spec fn view(&self) -> Assemblies {
        Map::new(
            |key: (Seq<u8>, u64)|
                exists|i: int|
                    0 <= i < self.pending@.len() && (#[trigger] self.pending@[i]).key() == key,
            |key: (Seq<u8>, u64)| self.pending@[self.index_of(key)].value(),
        )
    }
}

impl ChunkAssembler {
    /// An assembler that has received nothing.
    pub fn new() -> (assembler: ChunkAssembler)
        ensures
            assembler.wf(),
            assembler@ == Assemblies::empty(),
    {
        let assembler = ChunkAssembler { pending: Vec::new() };
        assert(assembler@ =~= Assemblies::empty());
        assembler
    }

    proof fn lemma_entry(self, i: int)
        requires
            self.wf(),
            0 <= i < self.pending@.len(),
        ensures
            self@.contains_key(self.pending@[i].key()),
            self@[self.pending@[i].key()] == self.pending@[i].value(),
    {
        let key = self.pending@[i].key();
        let j = self.index_of(key);
        assert(0 <= j < self.pending@.len() && self.pending@[j].key() == key);
        assert(i == j);
    }

    /// The position of a message among those tracked.
    fn find(&self, from: &EndpointId, id: u64) -> (found: Option<usize>)
        requires
            self.wf(),
        ensures
            match found {
                Some(i) => i < self.pending@.len() && self.pending@[i as int].key() == (from@, id),
                None => !self@.contains_key((from@, id)),
            },
    {
        let mut i: usize = 0;
        while i < self.pending.len()
            invariant
                i <= self.pending@.len(),
                forall|j: int|
                    0 <= j < i ==> (#[trigger] self.pending@[j]).key() != (from@, id),
            decreases self.pending@.len() - i,
        {
            if self.pending[i].id == id && crypto::same_bytes(&self.pending[i].from, from) {
                return Some(i);
            }
            assert(self.pending@[i as int].key() != (from@, id));
            i += 1;
        }
        None
    }
}

/// View of an optional message.
pub open spec fn msg_of(r: Option<SLPMsg>) -> Option<SignedMsg> {
    match r {
        Some(m) => Some(m@),
        None => None,
    }
}

impl ChunkAssembler {
    proof fn lemma_removed(self, before: ChunkAssembler, p: int)
        requires
            before.wf(),
            0 <= p < before.pending@.len(),
            self.pending@ == before.pending@.update(p, before.pending@.last()).drop_last(),
        ensures
            self.wf(),
            self@ == before@.remove(before.pending@[p].key()),
    {
        let gone = before.pending@[p].key();
        let last = before.pending@.len() - 1;
        let source = |j: int| if j == p { last } else { j };
        assert forall|j: int| 0 <= j < self.pending@.len() implies (#[trigger] self.pending@[j])
            == before.pending@[source(j)] && source(j) != p && 0 <= source(j) <= last by {}
        assert(self.wf()) by {
            assert forall|i: int, j: int| 0 <= i < j < self.pending@.len() implies (
            #[trigger] self.pending@[i]).key() != (#[trigger] self.pending@[j]).key() by {
                let a = source(i);
                let b = source(j);
                assert(before.pending@[a].key() != before.pending@[b].key());
            }
        }
        let target = before@.remove(gone);
        assert forall|key: (Seq<u8>, u64)|
            self@.dom().contains(key) == #[trigger] target.dom().contains(key) && (
            self@.contains_key(key) ==> self@[key] == target[key]) by {
            if self@.contains_key(key) {
                let j = choose|i: int|
                    0 <= i < self.pending@.len() && (#[trigger] self.pending@[i]).key() == key;
                let a = source(j);
                assert(before.pending@[a].key() == key);
                assert(before.pending@[p].key() == gone);
                assert(key != gone);
                self.lemma_entry(j);
                before.lemma_entry(a);
            }
            if target.contains_key(key) {
                let a = choose|i: int|
                    0 <= i < before.pending@.len() && (#[trigger] before.pending@[i]).key() == key;
                let j = if a == last { p } else { a };
                assert(self.pending@[j] == before.pending@[source(j)]);
                assert(self.pending@[j].key() == key);
            }
        }
        assert(self@.dom() =~= target.dom());
        assert(self@ =~= target);
    }

    proof fn lemma_pushed(self, before: ChunkAssembler, entry: ChunkAssembly)
        requires
            before.wf(),
            !before@.contains_key(entry.key()),
            self.pending@ == before.pending@.push(entry),
        ensures
            self.wf(),
            self@ == before@.insert(entry.key(), entry.value()),
    {
        let n = before.pending@.len() as int;
        assert forall|j: int| 0 <= j < n implies (#[trigger] self.pending@[j])
            == before.pending@[j] && self.pending@[j].key() != entry.key() by {
            before.lemma_entry(j);
        }
        assert(self.pending@[n] == entry);
        let target = before@.insert(entry.key(), entry.value());
        assert forall|key: (Seq<u8>, u64)|
            self@.dom().contains(key) == #[trigger] target.dom().contains(key) && (
            self@.contains_key(key) ==> self@[key] == target[key]) by {
            if self@.contains_key(key) {
                let j = choose|i: int|
                    0 <= i < self.pending@.len() && (#[trigger] self.pending@[i]).key() == key;
                self.lemma_entry(j);
                if j < n {
                    assert(before.pending@[j].key() == key);
                    before.lemma_entry(j);
                }
            }
            if target.contains_key(key) {
                if key == entry.key() {
                    assert(self.pending@[n].key() == key);
                } else {
                    let j = choose|i: int|
                        0 <= i < before.pending@.len() && (#[trigger] before.pending@[i]).key()
                            == key;
                    assert(self.pending@[j].key() == key);
                }
            }
        }
        assert(self@.dom() =~= target.dom());
        assert(self@ =~= target);
    }

    /// Joins the payloads of a message whose fragments have all arrived.
    fn join(entry: &ChunkAssembly) -> (full: Vec<u8>)
        ensures
            full@ == joined(entry.value().parts, entry.total as int),
    {
        let mut full: Vec<u8> = Vec::new();
        let mut i: u16 = 0;
        assert(full@ =~= joined(entry.value().parts, 0));
        while i < entry.total
            invariant
                i <= entry.total,
                full@ == joined(entry.value().parts, i as int),
            decreases entry.total - i,
        {
            match entry.parts.get(&i) {
                Some(part) => {
                    full.extend_from_slice(part.as_slice());
                    assert(full@ =~= joined(entry.value().parts, i as int) + part@);
                },
                None => {},
            }
            i += 1;
        }
        full
    }

    /// Handles the content of one received packet: returns the message to hand
    /// on, if there is one.
    pub fn handle_content(&mut self, content: &[u8]) -> (out: Option<SLPMsg>)
        requires
            old(self).wf(),
        ensures
            final(self).wf(),
            (final(self)@, msg_of(out)) == received(old(self)@, content@),
    {
        let parsed = match SLPMsg::from_bytes(content) {
            Ok(m) => m,
            Err(_) => {
                return None;
            },
        };
        let verified = match &parsed.body {
            SLPMsgData::Data { .. } => true,
            SLPMsgData::Chunk { from, .. } => parsed.verify(from),
            SLPMsgData::NewGame { from, .. } => parsed.verify(from),
        };
        if !verified {
            return None;
        }
        match parsed.body {
            SLPMsgData::Chunk { from, id, index, total, payload } => {
                let ghost key = (from@, id);
                let ghost grown = assembly_with(self@, key, index, total, payload@);
                let mut entry = match self.find(&from, id) {
                    Some(p) => {
                        let ghost before = *self;
                        let entry = self.pending.swap_remove(p);
                        proof {
                            before.lemma_entry(p as int);
                            self.lemma_removed(before, p as int);
                        }
                        entry
                    },
                    None => {
                        assert(self@.remove(key) =~= self@);
                        ChunkAssembly { from, id, total, parts: HashMap::new() }
                    },
                };
                let ghost before_insert = entry.parts@;
                entry.parts.insert(index, payload);
                assert(entry.value().parts =~= before_insert.map_values(|v: Vec<u8>| v@).insert(
                    index,
                    payload@,
                ));
                assert(entry.value() =~= grown) by {
                    assert(Map::<u16, Vec<u8>>::empty().map_values(|v: Vec<u8>| v@)
                        =~= Map::empty());
                }
                assert(entry.value().parts.dom() =~= entry.parts@.dom());
                if entry.parts.len() == entry.total as usize {
                    let full = Self::join(&entry);
                    match SLPMsg::from_bytes(full.as_slice()) {
                        Ok(reassembled) => {
                            if reassembled.verify(&from) {
                                Some(reassembled)
                            } else {
                                None
                            }
                        },
                        Err(_) => None,
                    }
                } else {
                    let ghost before = *self;
                    let ghost pushed = entry;
                    self.pending.push(entry);
                    proof {
                        self.lemma_pushed(before, pushed);
                        assert(self@ =~= old(self)@.insert(key, grown));
                    }
                    None
                }
            },
            _ => Some(parsed),
        }
    }
}

// ---------------------------------------------------------------------------
// Laws
// ---------------------------------------------------------------------------
/// What receiving several packets one after another does: the partly received
/// messages afterwards, and the messages handed on, in order.
pub open spec fn deliver(assemblies: Assemblies, packets: Seq<Seq<u8>>) -> (
    Assemblies,
    Seq<SignedMsg>,
)
    decreases packets.len(),
{
    if packets.len() == 0 {
        (assemblies, Seq::empty())
    } else {
        let (before, out) = deliver(assemblies, packets.drop_last());
        let (after, last) = received(before, packets.last());
        (
            after,
            match last {
                Some(m) => out.push(m),
                None => out,
            },
        )
    }
}

/// Packets in a given order.
pub open spec fn in_order(packets: Seq<Seq<u8>>, order: Seq<int>) -> Seq<Seq<u8>> {
    Seq::new(order.len(), |j: int| packets[order[j]])
}

/// Whether a sequence lists each of the first `n` indices exactly once.
pub open spec fn is_order_of(order: Seq<int>, n: int) -> bool {
    &&& order.len() == n
    &&& order.no_duplicates()
    &&& forall|k: int| 0 <= k < n ==> 0 <= #[trigger] order[k] < n
    &&& forall|i: int| 0 <= i < n ==> #[trigger] order.contains(i)
}

/// Whether a sequence lists each of the first `n` indices at least once, and the
/// index that it ends with only there. So the last entry is the last missing one.
pub open spec fn is_arrival_of(order: Seq<int>, n: int) -> bool {
    &&& order.len() > 0
    &&& forall|k: int| 0 <= k < order.len() ==> 0 <= #[trigger] order[k] < n
    &&& forall|i: int| 0 <= i < n ==> #[trigger] order.contains(i)
    &&& forall|k: int| 0 <= k < order.len() - 1 ==> #[trigger] order[k] != order.last()
}

/// The first `n` pieces of a message one after another.
pub open spec fn glued(pieces: Seq<Seq<u8>>, n: int) -> Seq<u8>
    decreases n,
{
    if n <= 0 {
        Seq::empty()
    } else {
        glued(pieces, n - 1) + pieces[n - 1]
    }
}

/// Whether packets are signed fragments, in order, that carry the pieces of a message,
/// however it was cut.
pub open spec fn pieces_carried(
    packets: Seq<Seq<u8>>,
    pieces: Seq<Seq<u8>>,
    from: Seq<u8>,
    id: u64,
) -> bool {
    &&& packets.len() == pieces.len()
    &&& 1 <= packets.len() <= MAX_CHUNKS
    &&& forall|i: int|
        0 <= i < packets.len() ==> carries(
            #[trigger] packets[i],
            MsgBody::Chunk {
                from,
                id,
                index: i as u16,
                total: pieces.len() as u16,
                payload: pieces[i],
            },
            from,
        )
}

/// The payloads known after the first `k` fragments of an order.
spec fn partial(pieces: Seq<Seq<u8>>, order: Seq<int>, k: int) -> Map<u16, Seq<u8>>
    decreases k,
{
    if k <= 0 {
        Map::empty()
    } else {
        partial(pieces, order, k - 1).insert(order[k - 1] as u16, pieces[order[k - 1]])
    }
}

/// The first `n` indices.
spec fn indices(n: int) -> Set<u16> {
    Set::new(|x: u16| x < n)
}

proof fn lemma_indices(n: int)
    requires
        0 <= n <= MAX_CHUNKS,
    ensures
        indices(n).finite(),
        indices(n).len() == n,
    decreases n,
{
    if n == 0 {
        assert(indices(0) =~= Set::empty());
    } else {
        lemma_indices(n - 1);
        assert(indices(n) =~= indices(n - 1).insert((n - 1) as u16));
    }
}

proof fn lemma_partial(pieces: Seq<Seq<u8>>, order: Seq<int>, k: int)
    requires
        is_arrival_of(order, pieces.len() as int),
        pieces.len() <= MAX_CHUNKS,
        0 <= k <= order.len(),
    ensures
        partial(pieces, order, k).dom().finite(),
        forall|j: int|
            0 <= j < k ==> partial(pieces, order, k).contains_key((#[trigger] order[j]) as u16),
        forall|x: u16| #[trigger]
            partial(pieces, order, k).contains_key(x) ==> x < pieces.len() && partial(
                pieces,
                order,
                k,
            )[x] == pieces[x as int],
        k < order.len() ==> !partial(pieces, order, k).contains_key(order.last() as u16),
    decreases k,
{
    if k > 0 {
        lemma_partial(pieces, order, k - 1);
        let prev = partial(pieces, order, k - 1);
        assert(partial(pieces, order, k).dom() =~= prev.dom().insert(order[k - 1] as u16));
        assert(0 <= order[k - 1] < pieces.len());
        assert(0 <= order[order.len() - 1] < pieces.len());
    }
}

proof fn lemma_partial_count(pieces: Seq<Seq<u8>>, order: Seq<int>, k: int)
    requires
        is_arrival_of(order, pieces.len() as int),
        pieces.len() <= MAX_CHUNKS,
        0 <= k <= order.len(),
    ensures
        (partial(pieces, order, k).len() == pieces.len()) == (k == order.len()),
{
    let n = pieces.len() as int;
    let known = partial(pieces, order, k).dom();
    let last = order.last() as u16;
    lemma_partial(pieces, order, k);
    assert(0 <= order[0] < n);
    lemma_indices(n);
    assert(0 <= order[order.len() - 1] < n);
    if k < order.len() {
        assert(known.subset_of(indices(n).remove(last)));
        vstd::set_lib::lemma_len_subset(known, indices(n).remove(last));
    } else {
        assert forall|x: u16| indices(n).contains(x) implies #[trigger] known.contains(x) by {
            assert(order.contains(x as int));
            let j = choose|j: int| 0 <= j < order.len() && order[j] == x as int;
            assert(partial(pieces, order, k).contains_key(order[j] as u16));
        }
        assert(known =~= indices(n));
    }
}

proof fn lemma_joined(parts: Map<u16, Seq<u8>>, pieces: Seq<Seq<u8>>, n: int)
    requires
        0 <= n <= pieces.len() <= MAX_CHUNKS,
        forall|i: int|
            0 <= i < pieces.len() ==> #[trigger] parts.contains_key(i as u16) && parts[i as u16]
                == pieces[i],
    ensures
        joined(parts, n) == glued(pieces, n),
    decreases n,
{
    if n > 0 {
        lemma_joined(parts, pieces, n - 1);
        assert(parts.contains_key((n - 1) as u16));
    }
}

/// Cutting a message into pieces of one size and gluing them gives it back.
proof fn lemma_chunks_glued(bytes: Seq<u8>, size: int, pieces: Seq<Seq<u8>>, n: int)
    requires
        bytes.len() > 0,
        size > 0,
        0 <= n <= chunk_count(bytes.len() as int, size),
        pieces.len() == chunk_count(bytes.len() as int, size),
        forall|i: int|
            0 <= i < pieces.len() ==> #[trigger] pieces[i] == chunk_payload(bytes, size, i),
    ensures
        n < chunk_count(bytes.len() as int, size) ==> glued(pieces, n) == bytes.take(n * size),
        n == chunk_count(bytes.len() as int, size) ==> glued(pieces, n) == bytes,
    decreases n,
{
    if n == 0 {
        assert(0 * size == 0) by (nonlinear_arith);
        assert(chunk_count(bytes.len() as int, size) > 0) by {
            let len = bytes.len() as int;
            assert(len % size == 0 ==> len / size > 0) by (nonlinear_arith)
                requires
                    len > 0,
                    size > 0,
            ;
            assert(len / size >= 0) by (nonlinear_arith)
                requires
                    len > 0,
                    size > 0,
            ;
        }
        assert(bytes.take(0) =~= Seq::empty());
    } else {
        lemma_chunks_glued(bytes, size, pieces, n - 1);
        lemma_chunk_bounds(bytes.len() as int, size, n - 1);
        assert(pieces[n - 1] == chunk_payload(bytes, size, n - 1));
        if n < chunk_count(bytes.len() as int, size) {
            assert(glued(pieces, n) =~= bytes.take(n * size));
        } else {
            assert(glued(pieces, n) =~= bytes);
        }
    }
}

proof fn lemma_delivered(
    assemblies: Assemblies,
    packets: Seq<Seq<u8>>,
    pieces: Seq<Seq<u8>>,
    from: Seq<u8>,
    id: u64,
    order: Seq<int>,
    k: int,
)
    requires
        pieces_carried(packets, pieces, from, id),
        is_arrival_of(order, packets.len() as int),
        !assemblies.contains_key((from, id)),
        0 <= k < order.len(),
    ensures
        deliver(assemblies, in_order(packets, order).take(k)) == (
            if k == 0 {
                assemblies
            } else {
                assemblies.insert(
                    (from, id),
                    Assembly {
                        total: packets.len() as u16,
                        parts: partial(pieces, order, k),
                    },
                )
            },
            Seq::<SignedMsg>::empty(),
        ),
    decreases k,
{
    let n = packets.len() as int;
    let sent = in_order(packets, order);
    if k > 0 {
        lemma_delivered(assemblies, packets, pieces, from, id, order, k - 1);
        lemma_partial_count(pieces, order, k);
        assert(sent.take(k).drop_last() =~= sent.take(k - 1));
        assert(sent.take(k).last() == packets[order[k - 1]]);
        let before = deliver(assemblies, sent.take(k - 1)).0;
        let next = Assembly { total: n as u16, parts: partial(pieces, order, k) };
        let grown = assembly_with(
            before,
            (from, id),
            order[k - 1] as u16,
            n as u16,
            pieces[order[k - 1]],
        );
        if k == 1 {
            assert(partial(pieces, order, 0) =~= Map::empty());
        }
        assert(grown =~= next);
        assert(msg::msg_parsed(packets[order[k - 1]]) is Some);
        assert(before.insert((from, id), grown) =~= assemblies.insert((from, id), next));
    } else {
        assert(sent.take(0) =~= Seq::empty());
    }
}

/// The fragments of a message that its sender signed, however the message was cut into
/// consecutive pieces, received in whatever order, any of them repeated before the last
/// missing one, are put together to exactly that message once the last missing one is
/// there; nothing is handed on before, and nothing is kept afterwards.
pub proof fn law_reassembly_of_pieces(
    assemblies: Assemblies,
    packets: Seq<Seq<u8>>,
    pieces: Seq<Seq<u8>>,
    from: Seq<u8>,
    id: u64,
    order: Seq<int>,
    m: SignedMsg,
)
    requires
        pieces_carried(packets, pieces, from, id),
        is_arrival_of(order, packets.len() as int),
        !assemblies.contains_key((from, id)),
        msg::msg_parsed(glued(pieces, pieces.len() as int)) == Some(m),
        msg::msg_verifies(m, from),
    ensures
        deliver(assemblies, in_order(packets, order)) == (assemblies, seq![m]),
        forall|k: int|
            0 <= k < order.len() ==> (#[trigger] deliver(
                assemblies,
                in_order(packets, order).take(k),
            )).1 == Seq::<SignedMsg>::empty(),
{
    let n = packets.len() as int;
    let len = order.len() as int;
    let sent = in_order(packets, order);
    assert forall|k: int| 0 <= k < len implies (#[trigger] deliver(assemblies, sent.take(k))).1
        == Seq::<SignedMsg>::empty() by {
        lemma_delivered(assemblies, packets, pieces, from, id, order, k);
    }
    lemma_delivered(assemblies, packets, pieces, from, id, order, len - 1);
    lemma_partial(pieces, order, len);
    lemma_partial_count(pieces, order, len);
    assert(sent.drop_last() =~= sent.take(len - 1));
    assert(sent.last() == packets[order[len - 1]]);
    let before = deliver(assemblies, sent.take(len - 1)).0;
    let parts = partial(pieces, order, len);
    let grown = assembly_with(
        before,
        (from, id),
        order[len - 1] as u16,
        n as u16,
        pieces[order[len - 1]],
    );
    if len == 1 {
        assert(partial(pieces, order, 0) =~= Map::empty());
    }
    assert(grown =~= Assembly { total: n as u16, parts });
    assert(msg::msg_parsed(packets[order[len - 1]]) is Some);
    assert forall|i: int| 0 <= i < n implies #[trigger] parts.contains_key(i as u16)
        && parts[i as u16] == pieces[i] by {
        assert(order.contains(i));
        let j = choose|j: int| 0 <= j < order.len() && order[j] == i;
        assert(parts.contains_key(order[j] as u16));
    }
    lemma_joined(parts, pieces, n);
    assert(before.remove((from, id)) =~= assemblies);
    assert(Seq::<SignedMsg>::empty().push(m) =~= seq![m]);
}

/// The fragments that a message was split into, received in whatever order, any of them
/// repeated before the last missing one, are put together to exactly that message once
/// the last missing one is there; nothing is handed on before, and nothing is kept
/// afterwards.
pub proof fn law_reassembly_with_repeats(
    assemblies: Assemblies,
    packets: Seq<Seq<u8>>,
    bytes: Seq<u8>,
    size: int,
    from: Seq<u8>,
    id: u64,
    order: Seq<int>,
    m: SignedMsg,
)
    requires
        size > 0,
        bytes.len() > 0,
        fragments_of(packets, bytes, size, from, id),
        is_arrival_of(order, packets.len() as int),
        !assemblies.contains_key((from, id)),
        msg::msg_parsed(bytes) == Some(m),
        msg::msg_verifies(m, from),
    ensures
        deliver(assemblies, in_order(packets, order)) == (assemblies, seq![m]),
        forall|k: int|
            0 <= k < order.len() ==> (#[trigger] deliver(
                assemblies,
                in_order(packets, order).take(k),
            )).1 == Seq::<SignedMsg>::empty(),
{
    let pieces = Seq::new(packets.len(), |i: int| chunk_payload(bytes, size, i));
    lemma_chunks_glued(bytes, size, pieces, pieces.len() as int);
    assert forall|i: int| 0 <= i < packets.len() implies carries(
        #[trigger] packets[i],
        MsgBody::Chunk {
            from,
            id,
            index: i as u16,
            total: pieces.len() as u16,
            payload: pieces[i],
        },
        from,
    ) by {
        assert(carries(packets[i], chunk_body(from, id, bytes, size, i), from));
    }
    law_reassembly_of_pieces(assemblies, packets, pieces, from, id, order, m);
}

/// The fragments of a message that its sender signed, each received once, in
/// whatever order, are put together to exactly that message once the last of them
/// is there; nothing is handed on before, and nothing is kept afterwards.
pub proof fn law_reassembly(
    assemblies: Assemblies,
    packets: Seq<Seq<u8>>,
    bytes: Seq<u8>,
    size: int,
    from: Seq<u8>,
    id: u64,
    order: Seq<int>,
    m: SignedMsg,
)
    requires
        size > 0,
        bytes.len() > 0,
        fragments_of(packets, bytes, size, from, id),
        is_order_of(order, packets.len() as int),
        !assemblies.contains_key((from, id)),
        msg::msg_parsed(bytes) == Some(m),
        msg::msg_verifies(m, from),
    ensures
        deliver(assemblies, in_order(packets, order)) == (
            assemblies,
            seq![m],
        ),
{
    assert(is_arrival_of(order, packets.len() as int));
    law_reassembly_with_repeats(assemblies, packets, bytes, size, from, id, order, m);
}

/// A fragment or a game announcement without a signature of the sender that it names
/// changes nothing and is not handed on.
pub proof fn law_unsigned_is_ignored(assemblies: Assemblies, content: Seq<u8>, m: SignedMsg)
    requires
        msg::msg_parsed(content) == Some(m),
        match m.body {
            MsgBody::Data { .. } => false,
            MsgBody::Chunk { from, .. } => !msg::msg_verifies(m, from),
            MsgBody::NewGame { from, .. } => !msg::msg_verifies(m, from),
        },
    ensures
        received(assemblies, content) == (assemblies, None::<SignedMsg>),
{
}

/// Receiving a packet touches at most the message that the packet is a signed
/// fragment of.
pub proof fn law_other_messages_untouched(assemblies: Assemblies, content: Seq<u8>, key: (Seq<u8>, u64))
    requires
        match msg::msg_parsed(content) {
            Some(m) => match m.body {
                MsgBody::Chunk { from, id, .. } => key != (from, id),
                _ => true,
            },
            None => true,
        },
    ensures
        received(assemblies, content).0.contains_key(key) == assemblies.contains_key(key),
        assemblies.contains_key(key) ==> received(assemblies, content).0[key] == assemblies[key],
{
}

/// A fragment or a game announcement is handed on only with a signature that some
/// identity accepts; where it was not reassembled, that identity is the sender it
/// names.
pub proof fn law_handed_on_is_signed(assemblies: Assemblies, content: Seq<u8>)
    ensures
        received(assemblies, content).1 matches Some(m) ==> {
            ||| m.body is Data
            ||| exists|from: Seq<u8>| #[trigger] msg::msg_verifies(m, from)
        },
        msg::msg_parsed(content) matches Some(m) ==> (m.body matches MsgBody::NewGame { from, .. }
            ==> received(assemblies, content).1 == (if msg::msg_verifies(m, from) {
            Some(m)
        } else {
            None
        })),
{
}

/// Into which packets a message goes. One that fits into a packet goes as it is. A longer
/// one is cut into pieces that are as long as a packet less 512 bytes, or one byte long where
/// packets are not longer than that; all but the last piece have that length, and no piece
/// is empty. Each goes in a signed fragment of its own with its index and the number of
/// pieces. Nothing goes where more than 65535 pieces would be needed, or packets are
/// shorter than 129 bytes; nor of an empty message.
pub proof fn law_packets_of_message(
    bytes: Seq<u8>,
    max: int,
    from: Seq<u8>,
    id: u64,
    secret: Seq<u8>,
)
    requires
        max >= 0,
    ensures
        ({
            let packets = packets_of(bytes, max, from, id, secret);
            let len = bytes.len() as int;
            let size = if max > 512 {
                max - 512
            } else {
                1
            };
            let n = packets.len() as int;
            &&& len == 0 ==> n == 0
            &&& 0 < len <= max ==> packets == seq![bytes]
            &&& len > max && (max < 129 || len > 65535 * size) ==> n == 0
            &&& len > max && max >= 129 && len <= 65535 * size ==> {
                &&& (n - 1) * size < len <= n * size
                &&& forall|i: int|
                    0 <= i < n ==> #[trigger] packets[i] == msg::msg_bytes(
                        msg::msg_signed(
                            MsgBody::Chunk {
                                from,
                                id,
                                index: i as u16,
                                total: n as u16,
                                payload: bytes.subrange(
                                    i * size,
                                    if i == n - 1 {
                                        len
                                    } else {
                                        i * size + size
                                    },
                                ),
                            },
                            secret,
                        ),
                    )
            }
        }),
{
    let packets = packets_of(bytes, max, from, id, secret);
    let len = bytes.len() as int;
    let size = if max > 512 {
        max - 512
    } else {
        1
    };
    let count = chunk_count(len, size);
    assert(len == size * (len / size) + len % size && 0 <= len % size < size) by (nonlinear_arith)
        requires
            size > 0,
    ;
    let q = len / size;
    assert((q - 1) * size == size * q - size && (q + 1) * size == size * q + size && q * size == size
        * q) by (nonlinear_arith);
    assert((count - 1) * size < len <= count * size);
    if count > 65535 {
        assert((count - 1) * size >= 65535 * size) by (nonlinear_arith)
            requires
                count - 1 >= 65535,
                size > 0,
        ;
    } else {
        assert(count * size <= 65535 * size) by (nonlinear_arith)
            requires
                count <= 65535,
                size > 0,
        ;
    }
    if len > max && max >= 129 && len <= 65535 * size {
        assert forall|i: int| 0 <= i < count implies #[trigger] packets[i] == msg::msg_bytes(
            msg::msg_signed(
                MsgBody::Chunk {
                    from,
                    id,
                    index: i as u16,
                    total: count as u16,
                    payload: bytes.subrange(
                        i * size,
                        if i == count - 1 {
                            len
                        } else {
                            i * size + size
                        },
                    ),
                },
                secret,
            ),
        ) by {
            assert((i + 1) * size == i * size + size) by (nonlinear_arith);
            if i < count - 1 {
                assert((i + 1) * size <= (count - 1) * size) by (nonlinear_arith)
                    requires
                        i + 1 <= count - 1,
                        size > 0,
                ;
            }
        }
    }
}

/// The pieces that a message is cut into, one after another, are the message.
pub proof fn law_pieces_make_up_message(bytes: Seq<u8>, size: int, n: int)
    requires
        size > 0,
        n >= 0,
        (n - 1) * size < bytes.len() <= n * size,
    ensures
        glued(Seq::new(n as nat, |i: int| chunk_payload(bytes, size, i)), n) == bytes,
{
    let pieces = Seq::new(n as nat, |i: int| chunk_payload(bytes, size, i));
    if n > 0 {
        lemma_glued_prefix(bytes, size, n, n - 1);
        assert((n - 1) * size + size == n * size) by (nonlinear_arith);
        assert(((n - 1) + 1) * size == n * size) by (nonlinear_arith);
        assert(glued(pieces, n) =~= bytes);
    } else {
        assert(n * size == 0) by (nonlinear_arith)
            requires
                n == 0,
        ;
        assert(glued(pieces, n) =~= bytes);
    }
}

proof fn lemma_glued_prefix(bytes: Seq<u8>, size: int, n: int, k: int)
    requires
        size > 0,
        0 <= k < n,
        (n - 1) * size < bytes.len() <= n * size,
    ensures
        0 <= k * size <= bytes.len(),
        glued(Seq::new(n as nat, |i: int| chunk_payload(bytes, size, i)), k) == bytes.subrange(
            0,
            k * size,
        ),
    decreases k,
{
    let pieces = Seq::new(n as nat, |i: int| chunk_payload(bytes, size, i));
    assert(0 <= k * size <= (n - 1) * size) by (nonlinear_arith)
        requires
            0 <= k <= n - 1,
            size > 0,
    ;
    if k > 0 {
        lemma_glued_prefix(bytes, size, n, k - 1);
        assert((k - 1) * size + size == k * size && ((k - 1) + 1) * size == k * size)
            by (nonlinear_arith);
        assert(pieces[k - 1] == bytes.subrange((k - 1) * size, k * size));
    } else {
        assert(k * size == 0) by (nonlinear_arith)
            requires
                k == 0,
        ;
    }
    assert(glued(pieces, k) =~= bytes.subrange(0, k * size));
}

/// What a signed fragment does. It is kept with those of its sender and identifier that
/// came before, in place of one with its index; how many there are, the first of them has
/// said. While the number of different ones is not that one, nothing is handed on. When it
/// is, they are put together, nothing of them is kept, and what they make up is handed on
/// if it is a message that the sender of the fragments has signed.
pub proof fn law_fragment_is_kept(assemblies: Assemblies, content: Seq<u8>, m: SignedMsg)
    requires
        msg::msg_parsed(content) == Some(m),
        m.body is Chunk,
        msg::msg_verifies(m, m.body->Chunk_from),
    ensures
        ({
            let (next, out) = received(assemblies, content);
            let from = m.body->Chunk_from;
            let index = m.body->index;
            let key = (from, m.body->id);
            let known = assemblies.contains_key(key);
            let before = if known {
                assemblies[key].parts
            } else {
                Map::empty()
            };
            let total = if known {
                assemblies[key].total
            } else {
                m.body->total
            };
            let parts = before.insert(index, m.body->payload);
            &&& parts.dom().len() != total ==> {
                &&& out is None
                &&& next.contains_key(key)
                &&& next[key].total == total
                &&& next[key].parts == parts
            }
            &&& parts.dom().len() == total ==> {
                &&& !next.contains_key(key)
                &&& out == (match msg::msg_parsed(joined(parts, total as int)) {
                    Some(w) => if msg::msg_verifies(w, from) {
                        Some(w)
                    } else {
                        None
                    },
                    None => None,
                })
            }
            &&& forall|other: (Seq<u8>, u64)|
                other != key ==> #[trigger] next.contains_key(other) == assemblies.contains_key(
                    other,
                )
            &&& forall|other: (Seq<u8>, u64)|
                other != key && assemblies.contains_key(other) ==> #[trigger] next[other]
                    == assemblies[other]
        }),
{
    let key = (m.body->Chunk_from, m.body->id);
    if !assemblies.contains_key(key) {
        assert(Map::<u16, Seq<u8>>::empty().insert(m.body->index, m.body->payload)
            =~= assembly_with(
            assemblies,
            key,
            m.body->index,
            m.body->total,
            m.body->payload,
        ).parts);
    }
}

/// Whether parts are the given pieces, each under its index.
pub open spec fn holds_pieces(parts: Map<u16, Seq<u8>>, pieces: Seq<Seq<u8>>) -> bool {
    forall|i: int|
        0 <= i < pieces.len() ==> parts.contains_key(i as u16) && parts[i as u16]
            == #[trigger] pieces[i]
}

/// The parts of a message are put together in the order of their indices.
pub proof fn law_parts_are_joined_in_order(parts: Map<u16, Seq<u8>>, pieces: Seq<Seq<u8>>)
    requires
        pieces.len() <= 65535,
        holds_pieces(parts, pieces),
    ensures
        joined(parts, pieces.len() as int) == glued(pieces, pieces.len() as int),
{
    lemma_joined_glued(parts, pieces, pieces.len() as int);
}

proof fn lemma_joined_glued(parts: Map<u16, Seq<u8>>, pieces: Seq<Seq<u8>>, n: int)
    requires
        0 <= n <= pieces.len() <= 65535,
        holds_pieces(parts, pieces),
    ensures
        joined(parts, n) == glued(pieces, n),
    decreases n,
{
    if n > 0 {
        lemma_joined_glued(parts, pieces, n - 1);
        assert(parts[(n - 1) as u16] == pieces[n - 1]);
    }
}

/// What else is received: data is handed on as it is, an announcement of a game if its
/// sender has signed it, and what is no message is dropped; none of it touches what is kept
/// of messages that come in fragments.
pub proof fn law_whole_messages(assemblies: Assemblies, content: Seq<u8>)
    ensures
        msg::msg_parsed(content) is None ==> received(assemblies, content) == (
            assemblies,
            None::<SignedMsg>,
        ),
        msg::msg_parsed(content) matches Some(m) ==> {
            &&& m.body is Data ==> received(assemblies, content) == (assemblies, Some(m))
            &&& m.body matches MsgBody::NewGame { from, .. } ==> received(assemblies, content) == (
                assemblies,
                if m.signature.len() == 64 && crypto::signature_accepted(
                    from,
                    msg::body_bytes(m.body),
                    m.signature,
                ) {
                    Some(m)
                } else {
                    None
                },
            )
        },
{
}

} // verus!
