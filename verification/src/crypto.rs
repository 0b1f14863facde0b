//! The cryptographic primitives that the protocol is built on.
//!
//! Everything here is computed by outside crates. Each function says what the
//! rest of the library relies on: a result is a fixed function of its
//! arguments, and the few relations between those functions that the
//! protocol's own guarantees rest on.

use chacha20poly1305::aead::generic_array::GenericArray;
use chacha20poly1305::aead::Aead;
use chacha20poly1305::{ChaCha20Poly1305, KeyInit};
use sha3::digest::{ExtendableOutput, Update, XofReader};
use vstd::prelude::*;

verus! {

/// Public identity of a peer: the 32 bytes of its Ed25519 public key.
pub type EndpointId = [u8; 32];

/// View of an optional byte vector.
pub open spec fn bytes_of(r: Option<Vec<u8>>) -> Option<Seq<u8>> {
    match r {
        Some(v) => Some(v@),
        None => None,
    }
}

/// Compares two 32-byte values.
pub fn same_bytes(a: &[u8; 32], b: &[u8; 32]) -> (same: bool)
    ensures
        same == (a@ == b@),
        same == (*a == *b),
{
    let mut i: usize = 0;
    while i < 32
        invariant
            i <= 32,
            forall|j: int| 0 <= j < i ==> a@[j] == b@[j],
        decreases 32 - i,
    {
        if a[i] != b[i] {
            assert(a@[i as int] != b@[i as int]);
            return false;
        }
        i += 1;
    }
    assert(a@ =~= b@);
    assert(*a =~= *b);
    true
}

// ---------------------------------------------------------------------------
// BLAKE3
// ---------------------------------------------------------------------------
/// What `blake3::hash` returns for the given input.
pub uninterp spec fn blake3_hash_of(input: Seq<u8>) -> Seq<u8>;

/// What `blake3::keyed_hash` returns for the given key and input.
pub uninterp spec fn blake3_keyed_hash_of(key: Seq<u8>, input: Seq<u8>) -> Seq<u8>;

/// Calls `blake3::hash`: the 32-byte digest is a function of the input bytes.
#[verifier::external_body]
pub(crate) fn blake3_hash(input: &[u8]) -> (digest: [u8; 32])
    ensures
        digest@ == blake3_hash_of(input@),
{
    *blake3::hash(input).as_bytes()
}

/// Calls `blake3::keyed_hash`: the 32-byte digest is a function of the key and
/// the input bytes.
#[verifier::external_body]
pub(crate) fn blake3_keyed_hash(key: &[u8; 32], input: &[u8]) -> (digest: [u8; 32])
    ensures
        digest@ == blake3_keyed_hash_of(key@, input@),
{
    *blake3::keyed_hash(key, input).as_bytes()
}

// ---------------------------------------------------------------------------
// ChaCha20-Poly1305
// ---------------------------------------------------------------------------
/// What `ChaCha20Poly1305::encrypt` returns for a key, a nonce and a plaintext,
/// with no associated data; `None` where it reports an error.
pub uninterp spec fn chacha_sealed(key: Seq<u8>, nonce: Seq<u8>, plaintext: Seq<u8>) -> Option<
    Seq<u8>,
>;

/// What `ChaCha20Poly1305::decrypt` returns for a key, a nonce and a
/// ciphertext, with no associated data; `None` where authentication fails.
pub uninterp spec fn chacha_opened(key: Seq<u8>, nonce: Seq<u8>, ciphertext: Seq<u8>) -> Option<
    Seq<u8>,
>;

/// Calls `encrypt` of `ChaCha20Poly1305`. The ciphertext is a function of the
/// key, the nonce and the plaintext, and opening it under the same key and
/// nonce gives the plaintext back.
#[verifier::external_body]
pub(crate) fn chacha_encrypt(key: &[u8; 32], nonce: &[u8; 12], plaintext: &[u8]) -> (sealed: Option<
    Vec<u8>,
>)
    ensures
        bytes_of(sealed) == chacha_sealed(key@, nonce@, plaintext@),
        sealed matches Some(c) ==> chacha_opened(key@, nonce@, c@) == Some(plaintext@),
{
    ChaCha20Poly1305::new(GenericArray::from_slice(key)).encrypt(
        GenericArray::from_slice(nonce),
        plaintext,
    ).ok()
}

/// Calls `decrypt` of `ChaCha20Poly1305`. The result is a function of the key,
/// the nonce and the ciphertext.
#[verifier::external_body]
pub(crate) fn chacha_decrypt(key: &[u8; 32], nonce: &[u8; 12], ciphertext: &[u8]) -> (opened:
    Option<Vec<u8>>)
    ensures
        bytes_of(opened) == chacha_opened(key@, nonce@, ciphertext@),
{
    ChaCha20Poly1305::new(GenericArray::from_slice(key)).decrypt(
        GenericArray::from_slice(nonce),
        ciphertext,
    ).ok()
}

// ---------------------------------------------------------------------------
// SHAKE256
// ---------------------------------------------------------------------------
/// A SHAKE256 sponge: accumulates bytes, from which output can be squeezed at
/// any time. Holds a `sha3::Shake256`, of which only the accumulated bytes
/// matter.
#[verifier::external_body]
pub struct Shake {
    inner: sha3::Shake256,
}

/// The bytes that a sponge has absorbed so far, in order.
pub uninterp spec fn absorbed(sponge: Shake) -> Seq<u8>;

/// The first 32 output bytes of SHAKE256 over the given input.
pub uninterp spec fn shake256_of(input: Seq<u8>) -> Seq<u8>;

/// Calls `default` of `sha3::Shake256`: a sponge that has absorbed nothing.
#[verifier::external_body]
pub(crate) fn shake_new() -> (sponge: Shake)
    ensures
        absorbed(sponge) == Seq::<u8>::empty(),
{
    Shake { inner: sha3::Shake256::default() }
}

/// Calls `update` of `sha3::Shake256`: appends the bytes to what the sponge has
/// absorbed.
#[verifier::external_body]
pub(crate) fn shake_update(sponge: &mut Shake, data: &[u8])
    ensures
        absorbed(*final(sponge)) == absorbed(*old(sponge)) + data@,
{
    sponge.inner.update(data)
}

/// Calls `finalize_xof` on a copy of the sponge and reads 32 bytes: a function
/// of what the sponge has absorbed. The sponge itself is left as it is.
#[verifier::external_body]
pub(crate) fn shake_squeeze(sponge: &Shake) -> (key: [u8; 32])
    ensures
        key@ == shake256_of(absorbed(*sponge)),
{
    let mut key = [0u8; 32];
    sponge.inner.clone().finalize_xof().read(&mut key);
    key
}

// ---------------------------------------------------------------------------
// Ed25519 peer identities
// ---------------------------------------------------------------------------
/// Whether `iroh::EndpointId::from_bytes` accepts the bytes as a public key.
pub uninterp spec fn valid_endpoint_id(id: Seq<u8>) -> bool;

/// The bytes of the public key that belongs to a secret key.
pub uninterp spec fn public_key_of(secret: Seq<u8>) -> Seq<u8>;

/// The signature that `iroh::SecretKey::sign` gives a message.
pub uninterp spec fn signature_of(secret: Seq<u8>, message: Seq<u8>) -> Seq<u8>;

/// Whether `iroh::EndpointId::verify` accepts a signature on a message.
pub uninterp spec fn signature_accepted(
    id: Seq<u8>,
    message: Seq<u8>,
    signature: Seq<u8>,
) -> bool;

/// Calls `iroh::EndpointId::from_bytes`: tells whether the bytes are a point on
/// the curve, and so an identity a peer can have.
#[verifier::external_body]
pub(crate) fn endpoint_id_is_valid(id: &EndpointId) -> (valid: bool)
    ensures
        valid == valid_endpoint_id(id@),
{
    iroh::EndpointId::from_bytes(id).is_ok()
}

/// Calls `iroh::SecretKey::public`: the identity is a function of the secret
/// key's bytes, and is a valid one.
#[verifier::external_body]
pub(crate) fn public_key(secret: &[u8; 32]) -> (id: EndpointId)
    ensures
        id@ == public_key_of(secret@),
        valid_endpoint_id(id@),
{
    *iroh::SecretKey::from_bytes(secret).public().as_bytes()
}

/// Calls `iroh::SecretKey::sign`. Ed25519 signatures are deterministic, so the
/// signature is a function of the secret key and the message; verification
/// under the matching public key accepts it.
#[verifier::external_body]
pub(crate) fn sign(secret: &[u8; 32], message: &[u8]) -> (signature: [u8; 64])
    ensures
        signature@ == signature_of(secret@, message@),
        signature_accepted(public_key_of(secret@), message@, signature@),
{
    iroh::SecretKey::from_bytes(secret).sign(message).to_bytes()
}

/// Calls `iroh::EndpointId::verify`: acceptance is a function of the identity,
/// the message and the signature. Bytes that are no identity accept nothing.
#[verifier::external_body]
pub(crate) fn verify_signature(id: &EndpointId, message: &[u8], signature: &[u8; 64]) -> (accepted:
    bool)
    ensures
        accepted == signature_accepted(id@, message@, signature@),
        accepted ==> valid_endpoint_id(id@),
{
    match iroh::EndpointId::from_bytes(id) {
        Ok(key) => key.verify(message, &iroh::Signature::from_bytes(signature)).is_ok(),
        Err(_) => false,
    }
}

} // verus!
