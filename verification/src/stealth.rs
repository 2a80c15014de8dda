//! Stealth addresses: a payer encapsulates a secret to the payee's ML-KEM
//! key and derives from it a one-time address that only the payee can
//! recognize.

use vstd::prelude::*;
use crate::outside::{
    blake3_digest, blake3_hash, hex_encode, hex_encoded, mlkem768_decapsulate, mlkem768_encapsulate, mlkem768_generate,
    mlkem768_shared_secret,
};

verus! {

/// The key a payee publishes: its ML-KEM-768 encapsulation key and a tag byte.
pub struct StealthPublicKey {
    pub ek_bytes: Vec<u8>,
    /// First byte of the BLAKE3 digest of `ek_bytes`.
    pub view_tag: u8,
}

/// What a stealth payment carries.
pub struct StealthPayload {
    /// Encapsulation of the shared secret to the payee's key.
    pub kem_ciphertext: Vec<u8>,
    /// First byte of the BLAKE3 digest of the secret and the tag domain.
    pub view_tag: u8,
    /// Lowercase hex of the first 20 bytes of the BLAKE3 digest of the
    /// secret and the address domain.
    pub one_time_address: String,
}

/// Why a stealth operation failed.
#[derive(Clone, Copy, Debug, PartialEq, Eq, Structural)]
pub enum StealthError {
    KeyGeneration,
    InvalidKey,
    Encapsulation,
    Decapsulation,
}

/// Domain of the address derivation.
pub const ADDRESS_DOMAIN: [u8; 18] = [
    0x72, 0x66, 0x5f, 0x73, 0x74, 0x65, 0x61, 0x6c, 0x74, 0x68, 0x5f, 0x61, 0x64, 0x64, 0x72, 0x5f, 0x76, 0x31,
];

/// Domain of the view tag.
pub const VIEW_TAG_DOMAIN: [u8; 11] = [0x72, 0x66, 0x5f, 0x76, 0x69, 0x65, 0x77, 0x5f, 0x74, 0x61, 0x67];

/// Domain of the spend key seed.
pub const SPEND_KEY_DOMAIN: [u8; 23] = [
    0x72, 0x66, 0x5f, 0x73, 0x74, 0x65, 0x61, 0x6c, 0x74, 0x68, 0x5f, 0x73, 0x70, 0x65, 0x6e, 0x64, 0x5f, 0x6b, 0x65,
    0x79, 0x5f, 0x76, 0x31,
];

/// The one-time address that a shared secret gives.
pub open spec fn stealth_address(secret: Seq<u8>) -> Seq<char> {
    hex_encoded(blake3_digest(secret + ADDRESS_DOMAIN@).subrange(0, 20))
}

/// The view tag that a shared secret gives.
pub open spec fn stealth_tag(secret: Seq<u8>) -> u8 {
    blake3_digest(secret + VIEW_TAG_DOMAIN@)[0]
}

fn concat(a: &[u8], b: &[u8]) -> (r: Vec<u8>)
    ensures
        r@ == a@ + b@,
{
    let mut out: Vec<u8> = Vec::new();
    let mut i: usize = 0;
    while i < a.len()
        invariant
            i <= a.len(),
            out@ == a@.subrange(0, i as int),
        decreases a.len() - i,
    {
        out.push(a[i]);
        assert(out@ =~= a@.subrange(0, i + 1));
        i = i + 1;
    }
    let mut j: usize = 0;
    while j < b.len()
        invariant
            i == a.len(),
            j <= b.len(),
            out@ == a@ + b@.subrange(0, j as int),
        decreases b.len() - j,
    {
        out.push(b[j]);
        assert(out@ =~= a@ + b@.subrange(0, j + 1));
        j = j + 1;
    }
    assert(a@.subrange(0, i as int) =~= a@);
    assert(b@.subrange(0, j as int) =~= b@);
    out
}

fn derive_address(secret: &[u8]) -> (r: String)
    ensures
        r@ == stealth_address(secret@),
{
    let h = blake3_hash(concat(secret, &ADDRESS_DOMAIN).as_slice());
    let mut head: Vec<u8> = Vec::new();
    let mut i: usize = 0;
    while i < 20
        invariant
            i <= 20,
            h@.len() == 32,
            head@ == h@.subrange(0, i as int),
        decreases 20 - i,
    {
        head.push(h[i]);
        assert(head@ =~= h@.subrange(0, i + 1));
        i = i + 1;
    }
    hex_encode(head.as_slice())
}

fn derive_tag(secret: &[u8]) -> (r: u8)
    ensures
        r == stealth_tag(secret@),
{
    let h = blake3_hash(concat(secret, &VIEW_TAG_DOMAIN).as_slice());
    h[0]
}

/// A fresh stealth key pair: the published key (with the first byte of the
/// digest of the encapsulation key as tag) and the encoded private key.
pub fn generate_stealth_keypair() -> (r: Result<(StealthPublicKey, Vec<u8>), StealthError>)
    ensures
        r matches Ok(p) ==> p.0.ek_bytes@.len() == 1184 && p.0.view_tag == blake3_digest(p.0.ek_bytes@)[0]
            && p.1@.len() == 2400,
        r is Err ==> r == Err::<(StealthPublicKey, Vec<u8>), StealthError>(StealthError::KeyGeneration),
{
    match mlkem768_generate() {
        Err(_) => Err(StealthError::KeyGeneration),
        Ok(pair) => {
            let (dk, ek) = pair;
            let h = blake3_hash(ek.as_slice());
            Ok((StealthPublicKey { ek_bytes: ek, view_tag: h[0] }, dk))
        },
    }
}

/// Pays to `recipient_pk`: a fresh encapsulation and the one-time address
/// and tag that its secret gives.
pub fn create_stealth_output(recipient_pk: &StealthPublicKey) -> (r: Result<StealthPayload, StealthError>)
    ensures
        recipient_pk.ek_bytes@.len() != 1184 ==> r == Err::<StealthPayload, StealthError>(StealthError::InvalidKey),
        r is Err ==> r == Err::<StealthPayload, StealthError>(StealthError::InvalidKey)
            || r == Err::<StealthPayload, StealthError>(StealthError::Encapsulation),
        r matches Ok(p) ==> exists|secret: Seq<u8>| secret.len() == 32 && p.one_time_address@ == stealth_address(secret)
            && p.view_tag == stealth_tag(secret),
{
    match mlkem768_encapsulate(recipient_pk.ek_bytes.as_slice()) {
        None => Err(StealthError::InvalidKey),
        Some(Err(_)) => Err(StealthError::Encapsulation),
        Some(Ok(pair)) => {
            let (ciphertext, secret) = pair;
            let one_time_address = derive_address(secret.as_slice());
            let view_tag = derive_tag(secret.as_slice());
            assert(secret@.len() == 32);
            Ok(StealthPayload { kem_ciphertext: ciphertext, view_tag, one_time_address })
        },
    }
}

/// Whether a payment is meant for the holder of `secret`: its one-time
/// address when the secret gives the payment's tag and address, else `None`.
pub fn stealth_match(secret: &[u8], payload: &StealthPayload) -> (r: Option<String>)
    ensures
        r is Some <==> (stealth_tag(secret@) == payload.view_tag
            && stealth_address(secret@) == payload.one_time_address@),
        r matches Some(a) ==> a@ == payload.one_time_address@,
{
    let tag = derive_tag(secret);
    if tag != payload.view_tag {
        return None;
    }
    let expected = derive_address(secret);
    if crate::chain::bytes_equal(expected.as_str().as_bytes(), payload.one_time_address.as_str().as_bytes()) {
        proof {
            vstd::utf8::encode_utf8_decode_utf8(expected@);
            vstd::utf8::encode_utf8_decode_utf8(payload.one_time_address@);
        }
        Some(expected)
    } else {
        None
    }
}

/// Scans a payment with the private key `dk_bytes`: the one-time address
/// when the secret decapsulated from it gives the payment's tag and
/// address (as `stealth_match` decides), else `None`.
pub fn scan_stealth_tx(dk_bytes: &[u8], payload: &StealthPayload) -> (r: Option<String>)
    ensures
        r matches Some(a) ==> {
            let secret = mlkem768_shared_secret(dk_bytes@, payload.kem_ciphertext@);
            &&& stealth_tag(secret) == payload.view_tag
            &&& stealth_address(secret) == payload.one_time_address@
            &&& a@ == payload.one_time_address@
        },
        dk_bytes@.len() != 2400 ==> r is None,
{
    let secret = match mlkem768_decapsulate(dk_bytes, payload.kem_ciphertext.as_slice()) {
        Some(Ok(s)) => s,
        _ => return None,
    };
    stealth_match(secret.as_slice(), payload)
}

/// The spend key seed of a stealth payment: the BLAKE3 digest of the
/// decapsulated secret and the spend domain.
pub fn derive_spend_key_seed(dk_bytes: &[u8], kem_ciphertext: &[u8]) -> (r: Result<[u8; 32], StealthError>)
    ensures
        r matches Ok(seed) ==> seed@ == blake3_digest(mlkem768_shared_secret(dk_bytes@, kem_ciphertext@) + SPEND_KEY_DOMAIN@),
        r is Err ==> r == Err::<[u8; 32], StealthError>(StealthError::Decapsulation),
{
    match mlkem768_decapsulate(dk_bytes, kem_ciphertext) {
        Some(Ok(secret)) => Ok(blake3_hash(concat(secret.as_slice(), &SPEND_KEY_DOMAIN).as_slice())),
        _ => Err(StealthError::Decapsulation),
    }
}

} // verus!
