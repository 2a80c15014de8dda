//! The hybrid handshake that opens an encrypted session with a peer: each
//! side contributes an X25519 key, the initiator an ML-KEM-768 key to which
//! the responder encapsulates a secret, and both derive the session secret
//! from the two shared secrets.

use vstd::prelude::*;
use crate::crypto::{combine_secrets, CryptoError, HybridKeyExchange, HybridSecret};
use crate::outside::{
    mlkem768_shared_secret, sha256_digest, x25519_agree_seed, x25519_generate_seed, x25519_public_from_seed,
    x25519_public_key_of, x25519_shared_secret,
};

verus! {

/// What the initiator sends.
pub enum PqcRequest {
    /// Its X25519 public key and its ML-KEM-768 encapsulation key.
    InitHandshake { x25519_public: Vec<u8>, kem_public: Vec<u8> },
}

/// What the initiator keeps until the answer comes: its X25519 private key
/// (as its seed) and its ML-KEM-768 decapsulation key.
pub struct PendingHandshake {
    pub x25519_private: Vec<u8>,
    pub kem_private: Vec<u8>,
}

/// What the responder sends back.
pub enum PqcResponse {
    /// Its X25519 public key and the ML-KEM ciphertext.
    HandshakeResponse { x25519_public: Vec<u8>, kem_ciphertext: Vec<u8> },
    /// Why it could not answer.
    Error(String),
}

/// A fresh X25519 private key (its seed) and its public key.
fn fresh_x25519() -> (r: Result<(Vec<u8>, Vec<u8>), CryptoError>)
    ensures
        r matches Ok(p) ==> p.1@ == x25519_public_key_of(p.0@),
        r is Err ==> r == Err::<(Vec<u8>, Vec<u8>), CryptoError>(CryptoError::KeyGenError),
{
    let seed = match x25519_generate_seed() {
        Ok(s) => s,
        Err(_) => return Err(CryptoError::KeyGenError),
    };
    match x25519_public_from_seed(seed.as_slice()) {
        Ok(public_key) => Ok((seed, public_key)),
        Err(_) => Err(CryptoError::KeyGenError),
    }
}

/// X25519 agreement of the private key `seed` with the peer's public key.
fn agree(seed: &[u8], peer: &[u8]) -> (r: Result<Vec<u8>, CryptoError>)
    ensures
        r matches Ok(s) ==> s@ == x25519_shared_secret(seed@, peer@),
        r is Err ==> r == Err::<Vec<u8>, CryptoError>(CryptoError::AgreementError),
{
    match x25519_agree_seed(seed, peer) {
        Ok(s) => Ok(s),
        Err(_) => Err(CryptoError::AgreementError),
    }
}

/// Starts a handshake: fresh X25519 and ML-KEM-768 keys, the public halves
/// to send (an encapsulation key of 1184 bytes) and the private halves to
/// keep (a decapsulation key of 2400 bytes).
pub fn initiate_handshake() -> (r: Result<(PqcRequest, PendingHandshake), CryptoError>)
    ensures
        r matches Ok(p) ==> (p.0 matches PqcRequest::InitHandshake { kem_public, x25519_public } && kem_public.len() == 1184
            && x25519_public@ == x25519_public_key_of(p.1.x25519_private@)) && p.1.kem_private.len() == 2400,
        r is Err ==> r == Err::<(PqcRequest, PendingHandshake), CryptoError>(CryptoError::KeyGenError),
{
    let (x25519_private, x25519_public_key) = fresh_x25519()?;
    let (kem_public, kem_private) = HybridKeyExchange::generate_kem_keypair()?;
    Ok((
        PqcRequest::InitHandshake { x25519_public: x25519_public_key, kem_public },
        PendingHandshake { x25519_private, kem_private },
    ))
}

/// Answers a peer's offer with a fresh X25519 key and a secret encapsulated
/// to its ML-KEM key. The session secret is the SHA-256 digest of the X25519
/// shared secret of the fresh key with the peer's X25519 key, followed by
/// the 32-byte encapsulated secret, sent as a 1088-byte ciphertext. An
/// encapsulation key that is not 1184 bytes long is refused. The
/// encapsulated secret is random: what is stated of it is its length.
pub fn respond_to_handshake(offer: &PqcRequest) -> (r: Result<(PqcResponse, HybridSecret), CryptoError>)
    ensures
        (offer matches PqcRequest::InitHandshake { kem_public, .. } && kem_public.len() != 1184) ==> r is Err,
        r matches Ok(p) ==> (offer matches PqcRequest::InitHandshake { x25519_public: peer, .. }
            && p.0 matches PqcResponse::HandshakeResponse { x25519_public: ours, kem_ciphertext }
            && kem_ciphertext.len() == 1088
            && exists|seed: Seq<u8>, quantum: Seq<u8>| {
                &&& quantum.len() == 32
                &&& ours@ == x25519_public_key_of(seed)
                &&& #[trigger] sha256_digest(x25519_shared_secret(seed, peer@) + quantum) == p.1.shared_key@
            }),
{
    let PqcRequest::InitHandshake { x25519_public: peer_x25519, kem_public } = offer;
    let (x25519_private, x25519_public_key) = fresh_x25519()?;
    let classic = agree(x25519_private.as_slice(), peer_x25519.as_slice())?;
    let (kem_ciphertext, quantum) = HybridKeyExchange::encapsulate_kem(kem_public.as_slice())?;
    let secret = combine_secrets(classic.as_slice(), quantum.as_slice());
    assert(sha256_digest(x25519_shared_secret(x25519_private@, peer_x25519@) + quantum@) == secret.shared_key@);
    Ok((PqcResponse::HandshakeResponse { x25519_public: x25519_public_key, kem_ciphertext }, secret))
}

/// Completes a handshake that we started with the peer's answer. The
/// session secret is the SHA-256 digest of the X25519 shared secret of our
/// key with the peer's, followed by the ML-KEM secret that our decapsulation
/// key derives from the answer's ciphertext; an error answer gives none. A
/// decapsulation key that is not 2400 bytes long is refused.
pub fn complete_handshake(pending: PendingHandshake, answer: &PqcResponse) -> (r: Option<Result<HybridSecret, CryptoError>>)
    ensures
        r is None <==> answer is Error,
        (answer is HandshakeResponse && pending.kem_private.len() != 2400) ==> (r matches Some(x) && x is Err),
        r matches Some(Ok(s)) ==> (answer matches PqcResponse::HandshakeResponse { kem_ciphertext, x25519_public: peer }
            && s.shared_key@ == sha256_digest(x25519_shared_secret(pending.x25519_private@, peer@)
                + mlkem768_shared_secret(pending.kem_private@, kem_ciphertext@))),
{
    let ghost dk = pending.kem_private@;
    let ghost seed = pending.x25519_private@;
    match answer {
        PqcResponse::Error(_) => None,
        PqcResponse::HandshakeResponse { x25519_public: peer_x25519, kem_ciphertext } => {
            let PendingHandshake { x25519_private, kem_private } = pending;
            let classic = match agree(x25519_private.as_slice(), peer_x25519.as_slice()) {
                Ok(c) => c,
                Err(e) => return Some(Err(e)),
            };
            let quantum = match HybridKeyExchange::decapsulate_kem(kem_private.as_slice(), kem_ciphertext.as_slice()) {
                Ok(q) => q,
                Err(e) => return Some(Err(e)),
            };
            let secret = combine_secrets(classic.as_slice(), quantum.as_slice());
            assert(sha256_digest(x25519_shared_secret(seed, peer_x25519@) + mlkem768_shared_secret(dk, kem_ciphertext@))
                == secret.shared_key@);
            Some(Ok(secret))
        },
    }
}

} // verus!
