//! Post-quantum signatures (ML-DSA-65), hybrid key agreement (X25519 with
//! ML-KEM-768) and the derivation of the shared hybrid secret.

use vstd::prelude::*;
use crate::outside::{
    mldsa65_accepts, mldsa65_check_pkcs8, mldsa65_generate, mldsa65_pkcs8_valid, mldsa65_public_key,
    mldsa65_public_key_bytes, mldsa65_sign, mldsa65_verify, mlkem768_decapsulate, mlkem768_encapsulate,
    mlkem768_generate, mlkem768_shared_secret, sha256, sha256_digest, x25519_agree, x25519_generate,
};

verus! {

/// Why a cryptographic operation failed.
#[derive(Clone, Copy, Debug, PartialEq, Eq, Structural)]
pub enum CryptoError {
    KeyGenError,
    SigningError,
    VerificationError,
    EncapsulationError,
    DecapsulationError,
    AgreementError,
}

/// Checks ML-DSA-65 signatures.
pub struct Verifier;

impl Verifier {
    /// `Ok` exactly when `signature` is a valid ML-DSA-65 signature of `message` under `public_key_bytes`.
    pub fn verify(public_key_bytes: &[u8], message: &[u8], signature: &[u8]) -> (r: Result<(), CryptoError>)
        ensures
            r is Ok == mldsa65_accepts(public_key_bytes@, message@, signature@),
            r is Err ==> r == Err::<(), CryptoError>(CryptoError::VerificationError),
    {
        match mldsa65_verify(public_key_bytes, message, signature) {
            Ok(()) => Ok(()),
            Err(_) => Err(CryptoError::VerificationError),
        }
    }
}


/// The text of `e`.
pub open spec fn crypto_error_text(e: CryptoError) -> Seq<char> {
    match e {
        CryptoError::KeyGenError => "Error en la generación de llaves"@,
        CryptoError::SigningError => "Error en la firma de datos"@,
        CryptoError::VerificationError => "Error en la verificación de firma"@,
        CryptoError::EncapsulationError => "Error en el encapsulamiento de llaves"@,
        CryptoError::DecapsulationError => "Error en el desencapsulamiento de llaves"@,
        CryptoError::AgreementError => "Error en el acuerdo de llaves (Agreement)"@,
    }
}

impl CryptoError {
    /// Text of the error.
    pub fn message(&self) -> (s: String)
        ensures
            s@ == crypto_error_text(*self),
    {
        match self {
            CryptoError::KeyGenError => String::from_str("Error en la generación de llaves"),
            CryptoError::SigningError => String::from_str("Error en la firma de datos"),
            CryptoError::VerificationError => String::from_str("Error en la verificación de firma"),
            CryptoError::EncapsulationError => String::from_str("Error en el encapsulamiento de llaves"),
            CryptoError::DecapsulationError => String::from_str("Error en el desencapsulamiento de llaves"),
            CryptoError::AgreementError => String::from_str("Error en el acuerdo de llaves (Agreement)"),
        }
    }
}

/// The shared secret of a hybrid key exchange.
pub struct HybridSecret {
    pub shared_key: [u8; 32],
}

/// Combines a classical (X25519) secret with a post-quantum (ML-KEM) one:
/// the SHA-256 digest of the two, classical first.
pub fn combine_secrets(classic_secret: &[u8], quantum_secret: &[u8]) -> (r: HybridSecret)
    ensures
        r.shared_key@ == sha256_digest(classic_secret@ + quantum_secret@),
{
    let mut data: Vec<u8> = Vec::new();
    let mut i: usize = 0;
    while i < classic_secret.len()
        invariant
            i <= classic_secret.len(),
            data@ == classic_secret@.subrange(0, i as int),
        decreases classic_secret.len() - i,
    {
        data.push(classic_secret[i]);
        assert(data@ =~= classic_secret@.subrange(0, i + 1));
        i = i + 1;
    }
    let mut j: usize = 0;
    while j < quantum_secret.len()
        invariant
            i == classic_secret.len(),
            j <= quantum_secret.len(),
            data@ == classic_secret@ + quantum_secret@.subrange(0, j as int),
        decreases quantum_secret.len() - j,
    {
        data.push(quantum_secret[j]);
        assert(data@ =~= classic_secret@ + quantum_secret@.subrange(0, j + 1));
        j = j + 1;
    }
    assert(classic_secret@.subrange(0, i as int) =~= classic_secret@);
    assert(quantum_secret@.subrange(0, j as int) =~= quantum_secret@);
    HybridSecret { shared_key: sha256(data.as_slice()) }
}

/// An ML-DSA-65 signing key pair, held as its PKCS#8 document.
pub struct SigningKeyPair {
    pkcs8: Vec<u8>,
}

impl SigningKeyPair {
    /// The PKCS#8 document of the key pair.
    pub closed spec fn document(&self) -> Seq<u8> {
        self.pkcs8@
    }

    /// The document is a valid ML-DSA-65 private key.
    pub open spec fn wf(&self) -> bool {
        mldsa65_pkcs8_valid(self.document())
    }

    /// The encoded public key of the pair.
    pub open spec fn public_key_spec(&self) -> Seq<u8> {
        mldsa65_public_key(self.document())
    }

    /// A fresh random key pair.
    pub fn generate() -> (r: Result<Self, CryptoError>)
        ensures
            r matches Ok(kp) ==> kp.wf(),
            r is Err ==> r == Err::<Self, CryptoError>(CryptoError::KeyGenError),
    {
        match mldsa65_generate() {
            Ok(doc) => Ok(SigningKeyPair { pkcs8: doc }),
            Err(_) => Err(CryptoError::KeyGenError),
        }
    }

    /// The key pair stored in the PKCS#8 document `pkcs8`; refused when the
    /// document is not a valid ML-DSA-65 key.
    pub fn from_pkcs8(pkcs8: &[u8]) -> (r: Result<Self, CryptoError>)
        ensures
            r is Ok == mldsa65_pkcs8_valid(pkcs8@),
            r matches Ok(kp) ==> kp.wf() && kp.document() == pkcs8@,
            r is Err ==> r == Err::<Self, CryptoError>(CryptoError::KeyGenError),
    {
        match mldsa65_check_pkcs8(pkcs8) {
            Ok(()) => {
                let mut doc: Vec<u8> = Vec::new();
                let mut i: usize = 0;
                while i < pkcs8.len()
                    invariant
                        i <= pkcs8.len(),
                        doc@ == pkcs8@.subrange(0, i as int),
                    decreases pkcs8.len() - i,
                {
                    doc.push(pkcs8[i]);
                    assert(doc@ =~= pkcs8@.subrange(0, i + 1));
                    i = i + 1;
                }
                assert(pkcs8@.subrange(0, i as int) =~= pkcs8@);
                Ok(SigningKeyPair { pkcs8: doc })
            },
            Err(_) => Err(CryptoError::KeyGenError),
        }
    }

    /// The PKCS#8 document of the key pair.
    pub fn to_pkcs8(&self) -> (r: Vec<u8>)
        ensures
            r@ == self.document(),
    {
        crate::chain::clone_bytes(&self.pkcs8)
    }

    /// Signs `message`; the signature verifies under the pair's public key.
    pub fn sign(&self, message: &[u8]) -> (r: Result<Vec<u8>, CryptoError>)
        requires
            self.wf(),
        ensures
            r matches Ok(sig) ==> mldsa65_accepts(self.public_key_spec(), message@, sig@),
            r is Err ==> r == Err::<Vec<u8>, CryptoError>(CryptoError::SigningError),
    {
        match mldsa65_sign(self.pkcs8.as_slice(), message) {
            Some(Ok(sig)) => Ok(sig),
            _ => Err(CryptoError::SigningError),
        }
    }

    /// The encoded public key.
    pub fn public_key(&self) -> (r: Vec<u8>)
        requires
            self.wf(),
        ensures
            r@ == self.public_key_spec(),
    {
        match mldsa65_public_key_bytes(self.pkcs8.as_slice()) {
            Some(pk) => pk,
            None => Vec::new(),
        }
    }
}

/// Hybrid key exchange: X25519 agreement combined with ML-KEM-768.
pub struct HybridKeyExchange;

impl HybridKeyExchange {
    /// A fresh ephemeral X25519 private key.
    pub fn generate_x25519_keypair() -> (r: Result<aws_lc_rs::agreement::EphemeralPrivateKey, CryptoError>)
        ensures
            r is Err ==> r == Err::<aws_lc_rs::agreement::EphemeralPrivateKey, CryptoError>(CryptoError::KeyGenError),
    {
        match x25519_generate() {
            Ok(k) => Ok(k),
            Err(_) => Err(CryptoError::KeyGenError),
        }
    }

    /// A fresh ML-KEM-768 key pair: the encoded encapsulation key (1184
    /// bytes) and the encoded decapsulation key (2400 bytes).
    pub fn generate_kem_keypair() -> (r: Result<(Vec<u8>, Vec<u8>), CryptoError>)
        ensures
            r matches Ok(p) ==> p.0.len() == 1184 && p.1.len() == 2400,
            r is Err ==> r == Err::<(Vec<u8>, Vec<u8>), CryptoError>(CryptoError::KeyGenError),
    {
        match mlkem768_generate() {
            Ok(pair) => {
                let (dk, ek) = pair;
                Ok((ek, dk))
            },
            Err(_) => Err(CryptoError::KeyGenError),
        }
    }

    /// X25519 agreement of `my_private_key` with the peer's public key.
    pub fn agree_x25519(my_private_key: aws_lc_rs::agreement::EphemeralPrivateKey, peer_public_key: &[u8]) -> (r: Result<Vec<u8>, CryptoError>)
        ensures
            r is Err ==> r == Err::<Vec<u8>, CryptoError>(CryptoError::AgreementError),
    {
        match x25519_agree(my_private_key, peer_public_key) {
            Ok(s) => Ok(s),
            Err(_) => Err(CryptoError::AgreementError),
        }
    }

    /// Encapsulates a fresh secret to the encoded key `ek_bytes`: the
    /// ciphertext and the 32-byte shared secret. A key that is not 1184
    /// bytes long is refused.
    pub fn encapsulate_kem(ek_bytes: &[u8]) -> (r: Result<(Vec<u8>, Vec<u8>), CryptoError>)
        ensures
            ek_bytes.len() != 1184 ==> r == Err::<(Vec<u8>, Vec<u8>), CryptoError>(CryptoError::KeyGenError),
            r is Err ==> r == Err::<(Vec<u8>, Vec<u8>), CryptoError>(CryptoError::KeyGenError)
                || r == Err::<(Vec<u8>, Vec<u8>), CryptoError>(CryptoError::EncapsulationError),
            r matches Ok(p) ==> p.0.len() == 1088 && p.1.len() == 32,
    {
        match mlkem768_encapsulate(ek_bytes) {
            None => Err(CryptoError::KeyGenError),
            Some(Err(_)) => Err(CryptoError::EncapsulationError),
            Some(Ok(pair)) => Ok(pair),
        }
    }

    /// Decapsulates `ciphertext_bytes` with the encoded private key
    /// `dk_bytes`: the shared secret that ML-KEM derives from the two.
    pub fn decapsulate_kem(dk_bytes: &[u8], ciphertext_bytes: &[u8]) -> (r: Result<Vec<u8>, CryptoError>)
        ensures
            dk_bytes.len() != 2400 ==> r == Err::<Vec<u8>, CryptoError>(CryptoError::DecapsulationError),
            r is Err ==> r == Err::<Vec<u8>, CryptoError>(CryptoError::DecapsulationError),
            r matches Ok(ss) ==> ss@ == mlkem768_shared_secret(dk_bytes@, ciphertext_bytes@),
    {
        match mlkem768_decapsulate(dk_bytes, ciphertext_bytes) {
            Some(Ok(ss)) => Ok(ss),
            _ => Err(CryptoError::DecapsulationError),
        }
    }
}

} // verus!
