//! Text and binary encodings: hexadecimal, base64, JSON field access and the
//! bincode layouts of the protocol's messages.

use base64::engine::general_purpose::{STANDARD, URL_SAFE_NO_PAD};
use base64::Engine;
use vstd::bytes::*;
use vstd::prelude::*;

use crate::crypto::{self, EndpointId};

verus! {

/// View of an optional string.
pub open spec fn text_of(r: Option<String>) -> Option<Seq<char>> {
    match r {
        Some(s) => Some(s@),
        None => None,
    }
}

// ---------------------------------------------------------------------------
// Hexadecimal
// ---------------------------------------------------------------------------
/// The lower-case hexadecimal digit of a value below sixteen.
pub open spec fn hex_digit(n: int) -> char {
    if n < 10 {
        ('0' as int + n) as char
    } else {
        ('a' as int + (n - 10)) as char
    }
}

/// Whether a character is a hexadecimal digit of either case.
pub open spec fn is_hex_digit(c: char) -> bool {
    ||| '0' <= c <= '9'
    ||| 'a' <= c <= 'f'
    ||| 'A' <= c <= 'F'
}

/// The value of a hexadecimal digit.
pub open spec fn hex_value(c: char) -> int {
    if '0' <= c <= '9' {
        c as int - '0' as int
    } else if 'a' <= c <= 'f' {
        c as int - 'a' as int + 10
    } else {
        c as int - 'A' as int + 10
    }
}

/// Two lower-case digits for each byte, high half first.
pub open spec fn hex_text(data: Seq<u8>) -> Seq<char> {
    Seq::new(
        2 * data.len(),
        |i: int|
            if i % 2 == 0 {
                hex_digit(data[i / 2] as int / 16)
            } else {
                hex_digit(data[i / 2] as int % 16)
            },
    )
}

/// The bytes that a hexadecimal text stands for: defined where the text is made
/// of pairs of digits and nothing else.
pub open spec fn hex_bytes(text: Seq<char>) -> Option<Seq<u8>> {
    if text.len() % 2 == 0 && (forall|i: int| 0 <= i < text.len() ==> is_hex_digit(text[i])) {
        Some(
            Seq::new(
                text.len() / 2,
                |i: int| (16 * hex_value(text[2 * i]) + hex_value(text[2 * i + 1])) as u8,
            ),
        )
    } else {
        None
    }
}

/// Calls `hex::encode`: two lower-case hexadecimal digits for each byte.
#[verifier::external_body]
pub(crate) fn hex_encode(data: &[u8]) -> (text: String)
    ensures
        text@ == hex_text(data@),
{
    hex::encode(data)
}

/// Calls `hex::decode`: the bytes of an even number of hexadecimal digits of
/// either case; an error on any other text.
#[verifier::external_body]
pub(crate) fn hex_decode(text: &str) -> (data: Option<Vec<u8>>)
    ensures
        crypto::bytes_of(data) == hex_bytes(text@),
{
    hex::decode(text).ok()
}

/// Decoding the hexadecimal text of some bytes gives the bytes back.
pub proof fn law_hex_roundtrip(data: Seq<u8>)
    ensures
        hex_bytes(hex_text(data)) == Some(data),
{
    let text = hex_text(data);
    assert forall|i: int| 0 <= i < text.len() implies is_hex_digit(#[trigger] text[i]) by {
        let b = data[i / 2] as int;
        assert(0 <= b / 16 < 16 && 0 <= b % 16 < 16);
    }
    let back = hex_bytes(text).unwrap();
    assert forall|i: int| 0 <= i < data.len() implies back[i] == #[trigger] data[i] by {
        let b = data[i] as int;
        assert((2 * i) / 2 == i && (2 * i) % 2 == 0);
        assert((2 * i + 1) / 2 == i && (2 * i + 1) % 2 == 1);
        assert(text[2 * i] == hex_digit(b / 16));
        assert(text[2 * i + 1] == hex_digit(b % 16));
    }
    assert(back =~= data);
}

/// The character code of the digit for a value below sixteen.
pub open spec fn digit_code(n: int) -> int {
    if n < 10 {
        48 + n
    } else {
        87 + n
    }
}

/// The hexadecimal text of some bytes: the codes of the characters are those of the digits
/// of the higher and the lower half of each byte, `0` to `9` and `a` to `f`.
pub proof fn law_hex_digits(data: Seq<u8>, i: int)
    requires
        0 <= i < data.len(),
    ensures
        hex_text(data).len() == 2 * data.len(),
        hex_text(data)[2 * i] as int == digit_code(data[i] as int / 16),
        hex_text(data)[2 * i + 1] as int == digit_code(data[i] as int % 16),
{
    assert((2 * i) / 2 == i && (2 * i) % 2 == 0);
    assert((2 * i + 1) / 2 == i && (2 * i + 1) % 2 == 1);
    let b = data[i] as int;
    assert(0 <= b / 16 < 16 && 0 <= b % 16 < 16);
}

/// Hexadecimal texts are read whether their digits are lower or upper case: bytes are read
/// exactly from an even number of characters with the codes of digits, and two digits with
/// the values `x` and `y` make the byte `16 * x + y`.
pub proof fn law_hex_is_read(text: Seq<char>, i: int, x: int, y: int)
    requires
        0 <= i,
        2 * i + 1 < text.len(),
        0 <= x < 16,
        0 <= y < 16,
        text[2 * i] as int == digit_code(x) || x >= 10 && text[2 * i] as int == 55 + x,
        text[2 * i + 1] as int == digit_code(y) || y >= 10 && text[2 * i + 1] as int == 55 + y,
    ensures
        hex_bytes(text) is Some <==> text.len() % 2 == 0 && forall|k: int|
            0 <= k < text.len() ==> {
                let c = #[trigger] text[k] as int;
                48 <= c <= 57 || 65 <= c <= 70 || 97 <= c <= 102
            },
        hex_bytes(text) matches Some(data) ==> data.len() == text.len() / 2 && data[i] == 16 * x
            + y,
{
    assert forall|k: int| 0 <= k < text.len() implies is_hex_digit(#[trigger] text[k]) == ({
        let c = text[k] as int;
        48 <= c <= 57 || 65 <= c <= 70 || 97 <= c <= 102
    }) by {}
}

// ---------------------------------------------------------------------------
// Base64
// ---------------------------------------------------------------------------
/// Whether a character is an ASCII letter, an ASCII digit, `-` or `_`.
pub open spec fn is_url_safe_char(c: char) -> bool {
    ||| '0' <= c <= '9'
    ||| 'a' <= c <= 'z'
    ||| 'A' <= c <= 'Z'
    ||| c == '-'
    ||| c == '_'
}

/// What `URL_SAFE_NO_PAD.encode` returns.
pub uninterp spec fn base64_url_text(data: Seq<u8>) -> Seq<char>;

/// What `URL_SAFE_NO_PAD.decode` returns, an error in its own words.
pub uninterp spec fn base64_url_decoded(text: Seq<char>) -> Result<Seq<u8>, Seq<char>>;

/// The bytes that a URL-safe base64 text stands for, if it is one.
pub open spec fn base64_url_bytes(text: Seq<char>) -> Option<Seq<u8>> {
    match base64_url_decoded(text) {
        Ok(data) => Some(data),
        Err(_) => None,
    }
}

/// View of decoded bytes, or of an error in words.
pub open spec fn decoded_view(r: Result<Vec<u8>, String>) -> Result<Seq<u8>, Seq<char>> {
    match r {
        Ok(data) => Ok(data@),
        Err(e) => Err(e@),
    }
}

/// What `STANDARD.decode` returns; `None` on an error.
pub uninterp spec fn base64_std_bytes(text: Seq<char>) -> Option<Seq<u8>>;

/// Calls `encode` of base64's URL-safe engine without padding. The text is a
/// function of the bytes, is made of letters, digits, `-` and `_`, has four
/// characters for three bytes (rounded up), and decodes to the bytes again.
#[verifier::external_body]
pub(crate) fn base64_url_encode(data: &[u8]) -> (text: String)
    ensures
        text@ == base64_url_text(data@),
        base64_url_bytes(text@) == Some(data@),
        text@.len() == (4 * data@.len() + 2) / 3,
        forall|i: int| 0 <= i < text@.len() ==> is_url_safe_char(#[trigger] text@[i]),
{
    URL_SAFE_NO_PAD.encode(data)
}

/// Calls `decode` of base64's URL-safe engine without padding, and `to_string` of its
/// error: the bytes, or the words of the error, are a function of the text.
#[verifier::external_body]
pub(crate) fn base64_url_decode(text: &str) -> (data: Result<Vec<u8>, String>)
    ensures
        decoded_view(data) == base64_url_decoded(text@),
{
    URL_SAFE_NO_PAD.decode(text).map_err(|e| e.to_string())
}

/// Calls `decode` of base64's standard engine: a function of the text.
#[verifier::external_body]
pub(crate) fn base64_std_decode(text: &str) -> (data: Option<Vec<u8>>)
    ensures
        crypto::bytes_of(data) == base64_std_bytes(text@),
{
    STANDARD.decode(text).ok()
}

// ---------------------------------------------------------------------------
// JSON
// ---------------------------------------------------------------------------
/// What a JSON text holds under two keys read as strings and one read as an
/// unsigned integer; `None` if the text is not JSON.
pub uninterp spec fn json_fields_of(
    data: Seq<u8>,
    text_key: Seq<char>,
    other_text_key: Seq<char>,
    number_key: Seq<char>,
) -> Option<(Option<Seq<char>>, Option<Seq<char>>, Option<u64>)>;

/// View of the fields that `json_fields` returns.
pub open spec fn fields_of(
    r: Option<(Option<String>, Option<String>, Option<u64>)>,
) -> Option<(Option<Seq<char>>, Option<Seq<char>>, Option<u64>)> {
    match r {
        Some(f) => Some((text_of(f.0), text_of(f.1), f.2)),
        None => None,
    }
}

/// Calls `serde_json::from_slice` and reads three fields of the value with
/// `get`, `as_str` and `as_u64`: a function of the bytes and the keys.
#[verifier::external_body]
pub(crate) fn json_fields(
    data: &[u8],
    text_key: &str,
    other_text_key: &str,
    number_key: &str,
) -> (fields: Option<(Option<String>, Option<String>, Option<u64>)>)
    ensures
        fields_of(fields) == json_fields_of(data@, text_key@, other_text_key@, number_key@),
{
    let value: serde_json::Value = serde_json::from_slice(data).ok()?;
    let text = value.get(text_key).and_then(|v| v.as_str()).map(|s| s.to_string());
    let other = value.get(other_text_key).and_then(|v| v.as_str()).map(|s| s.to_string());
    let number = value.get(number_key).and_then(|v| v.as_u64());
    Some((text, other, number))
}

// ---------------------------------------------------------------------------
// Bincode
// ---------------------------------------------------------------------------
/// A byte vector in bincode's fixed-width layout: its length as eight
/// little-endian bytes, then the bytes.
pub open spec fn bin_bytes(data: Seq<u8>) -> Seq<u8> {
    spec_u64_to_le_bytes(data.len() as u64) + data
}

/// A `(u32, Vec<u8>, [u8; 12])` in bincode's layout.
pub open spec fn bin_data(tag: u32, data: Seq<u8>, nonce: Seq<u8>) -> Seq<u8> {
    spec_u32_to_le_bytes(tag) + bin_bytes(data) + nonce
}

/// A `(u32, [u8; 32], u64, u16, u16, Vec<u8>)` in bincode's layout.
pub open spec fn bin_chunk(
    tag: u32,
    from: Seq<u8>,
    id: u64,
    index: u16,
    total: u16,
    payload: Seq<u8>,
) -> Seq<u8> {
    spec_u32_to_le_bytes(tag) + from + spec_u64_to_le_bytes(id) + spec_u16_to_le_bytes(index)
        + spec_u16_to_le_bytes(total) + bin_bytes(payload)
}

/// A `(u32, [u8; 32], [u8; 32])` in bincode's layout.
pub open spec fn bin_pair(tag: u32, from: Seq<u8>, seed: Seq<u8>) -> Seq<u8> {
    spec_u32_to_le_bytes(tag) + from + seed
}

/// A `([u8; 32], Vec<u8>)` in bincode's layout.
pub open spec fn bin_payload(from: Seq<u8>, data: Seq<u8>) -> Seq<u8> {
    from + bin_bytes(data)
}

/// Reads a little-endian `u32` off the front.
pub open spec fn take_u32(s: Seq<u8>) -> Option<(u32, Seq<u8>)> {
    if s.len() >= 4 {
        Some((spec_u32_from_le_bytes(s.take(4)), s.skip(4)))
    } else {
        None
    }
}

/// Reads a little-endian `u64` off the front.
pub open spec fn take_u64(s: Seq<u8>) -> Option<(u64, Seq<u8>)> {
    if s.len() >= 8 {
        Some((spec_u64_from_le_bytes(s.take(8)), s.skip(8)))
    } else {
        None
    }
}

/// Reads a little-endian `u16` off the front.
pub open spec fn take_u16(s: Seq<u8>) -> Option<(u16, Seq<u8>)> {
    if s.len() >= 2 {
        Some((spec_u16_from_le_bytes(s.take(2)), s.skip(2)))
    } else {
        None
    }
}

/// Reads `n` bytes off the front.
pub open spec fn take_fixed(s: Seq<u8>, n: int) -> Option<(Seq<u8>, Seq<u8>)> {
    if s.len() >= n {
        Some((s.take(n), s.skip(n)))
    } else {
        None
    }
}

/// Reads a length-prefixed byte vector off the front.
pub open spec fn take_bytes(s: Seq<u8>) -> Option<(Seq<u8>, Seq<u8>)> {
    match take_u64(s) {
        Some((n, rest)) => take_fixed(rest, n as int),
        None => None,
    }
}

/// The `(u32, Vec<u8>, [u8; 12], Vec<u8>)` at the front of some bytes.
pub open spec fn unbin_data(s: Seq<u8>) -> Option<(u32, Seq<u8>, Seq<u8>, Seq<u8>)> {
    match take_u32(s) {
        Some((tag, s)) => match take_bytes(s) {
            Some((data, s)) => match take_fixed(s, 12) {
                Some((nonce, s)) => match take_bytes(s) {
                    Some((signature, _)) => Some((tag, data, nonce, signature)),
                    None => None,
                },
                None => None,
            },
            None => None,
        },
        None => None,
    }
}

/// The `(u32, [u8; 32], u64, u16, u16, Vec<u8>, Vec<u8>)` at the front of some
/// bytes.
pub open spec fn unbin_chunk(s: Seq<u8>) -> Option<
    (u32, Seq<u8>, u64, u16, u16, Seq<u8>, Seq<u8>),
> {
    match take_u32(s) {
        Some((tag, s)) => match take_fixed(s, 32) {
            Some((from, s)) => match take_u64(s) {
                Some((id, s)) => match take_u16(s) {
                    Some((index, s)) => match take_u16(s) {
                        Some((total, s)) => match take_bytes(s) {
                            Some((payload, s)) => match take_bytes(s) {
                                Some((signature, _)) => Some(
                                    (tag, from, id, index, total, payload, signature),
                                ),
                                None => None,
                            },
                            None => None,
                        },
                        None => None,
                    },
                    None => None,
                },
                None => None,
            },
            None => None,
        },
        None => None,
    }
}

/// The `(u32, [u8; 32], [u8; 32], Vec<u8>)` at the front of some bytes.
pub open spec fn unbin_pair(s: Seq<u8>) -> Option<(u32, Seq<u8>, Seq<u8>, Seq<u8>)> {
    match take_u32(s) {
        Some((tag, s)) => match take_fixed(s, 32) {
            Some((from, s)) => match take_fixed(s, 32) {
                Some((seed, s)) => match take_bytes(s) {
                    Some((signature, _)) => Some((tag, from, seed, signature)),
                    None => None,
                },
                None => None,
            },
            None => None,
        },
        None => None,
    }
}

/// The `([u8; 32], Vec<u8>)` at the front of some bytes.
pub open spec fn unbin_payload(s: Seq<u8>) -> Option<(Seq<u8>, Seq<u8>)> {
    match take_fixed(s, 32) {
        Some((from, s)) => match take_bytes(s) {
            Some((data, _)) => Some((from, data)),
            None => None,
        },
        None => None,
    }
}

/// Calls `bincode::serialize` on a byte vector.
#[verifier::external_body]
pub(crate) fn serialize_bytes(data: &Vec<u8>) -> (out: Vec<u8>)
    ensures
        out@ == bin_bytes(data@),
{
    bincode::serialize(data).expect("a byte vector always serializes")
}

/// Calls `bincode::serialize` on a tag, a byte vector and a nonce.
#[verifier::external_body]
pub(crate) fn serialize_data(tag: u32, data: &Vec<u8>, nonce: &[u8; 12]) -> (out: Vec<u8>)
    ensures
        out@ == bin_data(tag, data@, nonce@),
{
    bincode::serialize(&(tag, data, nonce)).expect("plain values always serialize")
}

/// Calls `bincode::serialize` on a tag and the fields of a message fragment.
#[verifier::external_body]
pub(crate) fn serialize_chunk(
    tag: u32,
    from: &EndpointId,
    id: u64,
    index: u16,
    total: u16,
    payload: &Vec<u8>,
) -> (out: Vec<u8>)
    ensures
        out@ == bin_chunk(tag, from@, id, index, total, payload@),
{
    bincode::serialize(&(tag, from, id, index, total, payload)).expect(
        "plain values always serialize",
    )
}

/// Calls `bincode::serialize` on a tag and two 32-byte arrays.
#[verifier::external_body]
pub(crate) fn serialize_pair(tag: u32, from: &EndpointId, seed: &[u8; 32]) -> (out: Vec<u8>)
    ensures
        out@ == bin_pair(tag, from@, seed@),
{
    bincode::serialize(&(tag, from, seed)).expect("plain values always serialize")
}

/// Calls `bincode::serialize` on a 32-byte array and a byte vector.
#[verifier::external_body]
pub(crate) fn serialize_payload(from: &EndpointId, data: &Vec<u8>) -> (out: Vec<u8>)
    ensures
        out@ == bin_payload(from@, data@),
{
    bincode::serialize(&(from, data)).expect("plain values always serialize")
}

/// Calls `bincode::deserialize` for a `u32`; bytes behind it are ignored.
#[verifier::external_body]
pub(crate) fn deserialize_tag(bytes: &[u8]) -> (tag: Option<u32>)
    ensures
        tag == (match take_u32(bytes@) {
            Some((tag, _)) => Some(tag),
            None => None,
        }),
{
    bincode::deserialize(bytes).ok()
}

/// Calls `bincode::deserialize` for a tag, a byte vector, a nonce and a
/// signature; bytes behind them are ignored.
#[verifier::external_body]
pub(crate) fn deserialize_data(bytes: &[u8]) -> (fields: Option<
    (u32, Vec<u8>, [u8; 12], Vec<u8>),
>)
    ensures
        (match fields {
            Some(f) => Some((f.0, f.1@, f.2@, f.3@)),
            None => None,
        }) == unbin_data(bytes@),
{
    bincode::deserialize(bytes).ok()
}

/// Calls `bincode::deserialize` for a tag, the fields of a message fragment and a
/// signature; bytes behind them are ignored.
#[verifier::external_body]
pub(crate) fn deserialize_chunk(bytes: &[u8]) -> (fields: Option<
    (u32, EndpointId, u64, u16, u16, Vec<u8>, Vec<u8>),
>)
    ensures
        (match fields {
            Some(f) => Some((f.0, f.1@, f.2, f.3, f.4, f.5@, f.6@)),
            None => None,
        }) == unbin_chunk(bytes@),
{
    bincode::deserialize(bytes).ok()
}

/// Calls `bincode::deserialize` for a tag, two 32-byte arrays and a signature;
/// bytes behind them are ignored.
#[verifier::external_body]
pub(crate) fn deserialize_pair(bytes: &[u8]) -> (fields: Option<
    (u32, EndpointId, [u8; 32], Vec<u8>),
>)
    ensures
        (match fields {
            Some(f) => Some((f.0, f.1@, f.2@, f.3@)),
            None => None,
        }) == unbin_pair(bytes@),
{
    bincode::deserialize(bytes).ok()
}

/// Calls `bincode::deserialize` for a 32-byte array and a byte vector; bytes
/// behind them are ignored.
#[verifier::external_body]
pub(crate) fn deserialize_payload(bytes: &[u8]) -> (fields: Option<(EndpointId, Vec<u8>)>)
    ensures
        (match fields {
            Some(f) => Some((f.0@, f.1@)),
            None => None,
        }) == unbin_payload(bytes@),
{
    bincode::deserialize(bytes).ok()
}

// ---------------------------------------------------------------------------
// Endpoint addresses
// ---------------------------------------------------------------------------
/// What the bincode form of an `iroh::EndpointAddr` holds: the bytes of its
/// identifier, and whether it has no network address; `None` if the bytes are
/// no such form.
pub uninterp spec fn endpoint_addr_of(wire: Seq<u8>) -> Option<(Seq<u8>, bool)>;

/// Calls `bincode::deserialize` for an `iroh::EndpointAddr` and reads its `id`
/// and `is_empty`: a function of the bytes. The identifier was checked to be a
/// valid one.
#[verifier::external_body]
pub(crate) fn deserialize_endpoint_addr(wire: &[u8]) -> (addr: Option<(EndpointId, bool)>)
    ensures
        (match addr {
            Some(a) => Some((a.0@, a.1)),
            None => None,
        }) == endpoint_addr_of(wire@),
        addr matches Some(a) ==> crypto::valid_endpoint_id(a.0@),
{
    let addr: iroh::EndpointAddr = bincode::deserialize(wire).ok()?;
    Some((*addr.id.as_bytes(), addr.is_empty()))
}

// ---------------------------------------------------------------------------
// UBJSON
// ---------------------------------------------------------------------------
/// The start of a UBJSON array with a length below 256.
pub open spec fn ubjson_array(len: int) -> Seq<u8> {
    seq![0x5bu8, 0x23u8, 0x55u8, len as u8]
}

/// Fewer than 256 bytes as a UBJSON array: each byte is marked as one.
pub open spec fn ubjson_bytes(data: Seq<u8>) -> Seq<u8> {
    ubjson_array(data.len() as int) + Seq::new(
        2 * data.len(),
        |i: int|
            if i % 2 == 0 {
                0x55u8
            } else {
                data[i / 2]
            },
    )
}

/// A truth value in UBJSON.
pub open spec fn ubjson_bool(b: bool) -> Seq<u8> {
    if b {
        seq![0x54u8]
    } else {
        seq![0x46u8]
    }
}

/// A `(u8, (Vec<u8>, Vec<u8>, bool))` in UBJSON.
pub open spec fn ubjson_handshake_of(kind: u8, cursor: Seq<u8>, token: Seq<u8>, flag: bool) -> Seq<
    u8,
> {
    ubjson_array(2) + seq![0x55u8, kind] + ubjson_array(3) + ubjson_bytes(cursor) + ubjson_bytes(
        token,
    ) + ubjson_bool(flag)
}

/// Calls `serde_ubjson::to_vec` on a number, two byte vectors and a truth value,
/// which are written as nested arrays with their lengths. Writing to memory does not
/// fail. Lengths from 256 on would be written in another form.
#[verifier::external_body]
pub(crate) fn ubjson_handshake(kind: u8, cursor: &Vec<u8>, token: &Vec<u8>, flag: bool) -> (out: Vec<
    u8,
>)
    requires
        cursor@.len() < 256,
        token@.len() < 256,
    ensures
        out@ == ubjson_handshake_of(kind, cursor@, token@, flag),
{
    serde_ubjson::to_vec(&(kind, (cursor, token, flag))).expect("memory can be written to")
}

} // verus!
