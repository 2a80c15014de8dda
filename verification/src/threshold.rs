//! The threshold-encrypted mempool: one ML-KEM-768 key pair per round,
//! payloads xored with the encapsulated secret and bound to a BLAKE3
//! commitment, and the history of sealed round keys.

use vstd::prelude::*;
use crate::chain::{
    clone_bytes, EncryptedTransaction, PrivateTxPayload, RevealedKeyView, RevealedRoundKey, Transaction,
};
use crate::codec::{decode_payload, encode_payload, enc_payload, parse_payload, lemma_payload_roundtrip, PayloadView};
use crate::outside::{
    blake3_digest, blake3_hash, mlkem768_decapsulate, mlkem768_encapsulate, mlkem768_generate,
    mlkem768_shared_secret, revealed_entries, revealed_map_get, RevealedKeyMap, revealed_map_insert, revealed_map_new,
    utc_now_timestamp,
};

verus! {

/// Why an operation of the threshold mempool failed.
#[derive(Clone, Copy, Debug, PartialEq, Eq, Structural)]
pub enum ThresholdError {
    KeyGeneration,
    DecapsulationKeyMissing,
    Decapsulation,
    CommitmentMismatch,
    MalformedPayload,
    InvalidEncapsulationKey,
    Encapsulation,
}

/// The text of `e`.
pub open spec fn threshold_error_text(e: ThresholdError) -> Seq<char> {
    match e {
        ThresholdError::KeyGeneration => "ML-KEM key generation failed"@,
        ThresholdError::DecapsulationKeyMissing => "DK no inicializada"@,
        ThresholdError::Decapsulation => "ML-KEM decapsulation failed"@,
        ThresholdError::CommitmentMismatch => "Commitment mismatch"@,
        ThresholdError::MalformedPayload => "malformed private payload"@,
        ThresholdError::InvalidEncapsulationKey => "invalid ML-KEM encapsulation key"@,
        ThresholdError::Encapsulation => "ML-KEM encapsulation failed"@,
    }
}

impl ThresholdError {
    /// Text of the error.
    pub fn message(&self) -> (s: String)
        ensures
            s@ == threshold_error_text(*self),
    {
        match self {
            ThresholdError::KeyGeneration => String::from_str("ML-KEM key generation failed"),
            ThresholdError::DecapsulationKeyMissing => String::from_str("DK no inicializada"),
            ThresholdError::Decapsulation => String::from_str("ML-KEM decapsulation failed"),
            ThresholdError::CommitmentMismatch => String::from_str("Commitment mismatch"),
            ThresholdError::MalformedPayload => String::from_str("malformed private payload"),
            ThresholdError::InvalidEncapsulationKey => String::from_str("invalid ML-KEM encapsulation key"),
            ThresholdError::Encapsulation => String::from_str("ML-KEM encapsulation failed"),
        }
    }
}

/// `data` xored with `key` repeated along it.
pub open spec fn xor_stream(data: Seq<u8>, key: Seq<u8>) -> Seq<u8> {
    Seq::new(data.len(), |i: int| data[i] ^ key[i % (key.len() as int)])
}

/// Xors `data` with `key` repeated along it; `key` may be empty only when
/// `data` is.
pub fn xor_cipher(data: &[u8], key: &[u8]) -> (r: Vec<u8>)
    requires
        key.len() > 0 || data.len() == 0,
    ensures
        r@ == xor_stream(data@, key@),
{
    let mut out: Vec<u8> = Vec::new();
    let mut i: usize = 0;
    while i < data.len()
        invariant
            key.len() > 0 || data.len() == 0,
            i <= data.len(),
            out@.len() == i,
            forall|j: int| 0 <= j < i ==> out@[j] == data@[j] ^ key@[j % (key.len() as int)],
        decreases data.len() - i,
    {
        out.push(data[i] ^ key[i % key.len()]);
        i = i + 1;
    }
    assert(out@ =~= xor_stream(data@, key@));
    out
}

/// What opening a payload with `secret` gives: the payload that the
/// plaintext encodes, when it encodes one and its digest is the commitment.
pub open spec fn opened_payload(encrypted: Seq<u8>, secret: Seq<u8>, commitment: Seq<u8>) -> Result<PayloadView, ThresholdError> {
    let plain = xor_stream(encrypted, secret);
    match parse_payload(plain) {
        None => Err(ThresholdError::MalformedPayload),
        Some(p) => if blake3_digest(plain) == commitment {
            Ok(p)
        } else {
            Err(ThresholdError::CommitmentMismatch)
        },
    }
}

/// Result of a payload opening, by views.
pub open spec fn opened_view(r: Result<PrivateTxPayload, ThresholdError>) -> Result<PayloadView, ThresholdError> {
    match r {
        Ok(p) => Ok(p@),
        Err(e) => Err(e),
    }
}

/// Opens the payload of `etx` with the shared secret of its round: xors it
/// back, decodes it and checks the plaintext against the commitment.
pub fn open_payload(shared_secret: &[u8], etx: &EncryptedTransaction) -> (r: Result<PrivateTxPayload, ThresholdError>)
    requires
        shared_secret.len() > 0 || etx.encrypted_payload.len() == 0,
    ensures
        opened_view(r) == opened_payload(etx.encrypted_payload@, shared_secret@, etx.payload_commitment@),
{
    let plaintext = xor_cipher(etx.encrypted_payload.as_slice(), shared_secret);
    let payload = match decode_payload(plaintext.as_slice()) {
        None => return Err(ThresholdError::MalformedPayload),
        Some(p) => p,
    };
    let commitment = blake3_hash(plaintext.as_slice());
    let mut same = true;
    let mut i: usize = 0;
    while i < 32
        invariant
            i <= 32,
            same <==> forall|j: int| 0 <= j < i ==> commitment@[j] == etx.payload_commitment@[j],
        decreases 32 - i,
    {
        if commitment[i] != etx.payload_commitment[i] {
            same = false;
        }
        i = i + 1;
    }
    if same {
        assert(commitment@ =~= etx.payload_commitment@);
        Ok(payload)
    } else {
        Err(ThresholdError::CommitmentMismatch)
    }
}

/// A payload encoded, sealed with a nonempty secret and committed to by the
/// digest of its encoding opens, with that secret, to itself.
pub proof fn lemma_seal_then_open(payload: PayloadView, secret: Seq<u8>)
    requires
        secret.len() > 0,
        payload.salt.len() == 32,
        vstd::utf8::encode_utf8(payload.receiver).len() <= u64::MAX,
        payload.data.len() <= u64::MAX,
    ensures
        opened_payload(xor_stream(enc_payload(payload), secret), secret, blake3_digest(enc_payload(payload)))
            == Ok::<PayloadView, ThresholdError>(payload),
{
    let plain = enc_payload(payload);
    let twice = xor_stream(xor_stream(plain, secret), secret);
    assert forall|i: int| 0 <= i < plain.len() implies twice[i] == plain[i] by {
        let a = plain[i];
        let k = secret[i % (secret.len() as int)];
        assert((a ^ k) ^ k == a) by (bit_vector);
    }
    assert(twice =~= plain);
    lemma_payload_roundtrip(payload, Seq::empty());
    assert(plain + Seq::<u8>::empty() =~= plain);
}

/// Seals `payload` to the round key `ek_bytes`: the ML-KEM ciphertext, the
/// encoded payload xored with the encapsulated secret, and the BLAKE3
/// commitment to the encoded payload.
pub fn encrypt_payload(ek_bytes: &[u8], payload: &PrivateTxPayload, round: u64) -> (r: Result<(Vec<u8>, Vec<u8>, [u8; 32]), ThresholdError>)
    ensures
        ek_bytes.len() != 1184 ==> r == Err::<(Vec<u8>, Vec<u8>, [u8; 32]), ThresholdError>(ThresholdError::InvalidEncapsulationKey),
        r is Err ==> r == Err::<(Vec<u8>, Vec<u8>, [u8; 32]), ThresholdError>(ThresholdError::InvalidEncapsulationKey)
            || r == Err::<(Vec<u8>, Vec<u8>, [u8; 32]), ThresholdError>(ThresholdError::Encapsulation),
        r matches Ok(t) ==> {
            &&& t.2@ == blake3_digest(enc_payload(payload@))
            &&& t.0.len() == 1088
            &&& exists|secret: Seq<u8>| secret.len() == 32 && t.1@ == xor_stream(enc_payload(payload@), secret)
        },
{
    let plaintext = encode_payload(payload);
    let commitment = blake3_hash(plaintext.as_slice());
    match mlkem768_encapsulate(ek_bytes) {
        None => Err(ThresholdError::InvalidEncapsulationKey),
        Some(Err(_)) => Err(ThresholdError::Encapsulation),
        Some(Ok(pair)) => {
            let (ciphertext, secret) = pair;
            let encrypted = xor_cipher(plaintext.as_slice(), secret.as_slice());
            assert(secret@.len() == 32 && encrypted@ == xor_stream(enc_payload(payload@), secret@));
            Ok((ciphertext, encrypted, commitment))
        },
    }
}

/// The mempool's keys as a mathematical value.
pub struct ThresholdView {
    pub round: u64,
    pub ek: Seq<u8>,
    pub dk: Option<Seq<u8>>,
    pub revealed: Map<u64, RevealedKeyView>,
}

/// The history after sealing the active key: the active round's
/// encapsulation key is published (with no private half) when a key pair
/// is held and its public key is not empty.
pub open spec fn sealed_history(v: ThresholdView) -> Map<u64, RevealedKeyView> {
    if v.dk is Some && v.ek.len() > 0 {
        v.revealed.insert(v.round, RevealedKeyView { round: v.round, ek_bytes: v.ek, dk_bytes: Seq::empty() })
    } else {
        v.revealed
    }
}

/// Mempool keys: the active round, its ML-KEM-768 key pair (private key
/// encoded) and the revealed keys of sealed rounds.
pub struct ThresholdMempool {
    current_round: u64,
    current_ek: Vec<u8>,
    current_dk: Option<Vec<u8>>,
    revealed_keys: RevealedKeyMap,
}

impl View for ThresholdMempool {
    type V = ThresholdView;

    closed spec fn view(&self) -> ThresholdView {
        ThresholdView {
            round: self.current_round,
            ek: self.current_ek@,
            dk: match self.current_dk {
                Some(d) => Some(d@),
                None => None,
            },
            revealed: revealed_entries(self.revealed_keys),
        }
    }
}

impl ThresholdMempool {
    /// A held private key is an encoded ML-KEM-768 key.
    pub open spec fn wf(&self) -> bool {
        self@.dk matches Some(d) ==> d.len() == 2400
    }

    /// A mempool at round 0 with a fresh key pair and no revealed keys.
    pub fn new() -> (r: Result<Self, ThresholdError>)
        ensures
            r matches Ok(tm) ==> {
                &&& tm.wf()
                &&& tm@.round == 0
                &&& tm@.ek.len() == 1184
                &&& tm@.dk is Some
                &&& tm@.revealed == Map::<u64, RevealedKeyView>::empty()
            },
            r is Err ==> r == Err::<Self, ThresholdError>(ThresholdError::KeyGeneration),
    {
        let mut tm = ThresholdMempool {
            current_round: 0,
            current_ek: Vec::new(),
            current_dk: None,
            revealed_keys: revealed_map_new(),
        };
        match tm.rotate_keys(0) {
            Ok(_) => Ok(tm),
            Err(e) => Err(e),
        }
    }

    /// The active round and its encapsulation key.
    pub fn get_current_ek(&self) -> (r: (u64, Vec<u8>))
        ensures
            r.0 == self@.round,
            r.1@ == self@.ek,
    {
        (self.current_round, clone_bytes(&self.current_ek))
    }

    /// The revealed key of `round`, if that round was sealed.
    pub fn revealed_key_for_round(&self, round: u64) -> (r: Option<RevealedRoundKey>)
        ensures
            r is None <==> !self@.revealed.contains_key(round),
            r matches Some(k) ==> k@ == self@.revealed[round],
    {
        revealed_map_get(&self.revealed_keys, round)
    }

    /// Seals the active key into the history and installs a fresh key pair
    /// for `round`, returning its encapsulation key. The history is sealed
    /// even when key generation then fails; the active keys stay as they
    /// were in that case.
    pub fn rotate_keys(&mut self, round: u64) -> (r: Result<Vec<u8>, ThresholdError>)
        requires
            old(self).wf(),
        ensures
            final(self).wf(),
            final(self)@.revealed == sealed_history(old(self)@),
            r matches Ok(ek) ==> {
                &&& final(self)@.round == round
                &&& final(self)@.ek == ek@
                &&& ek@.len() == 1184
                &&& final(self)@.dk is Some
            },
            r is Err ==> {
                &&& r == Err::<Vec<u8>, ThresholdError>(ThresholdError::KeyGeneration)
                &&& final(self)@.round == old(self)@.round
                &&& final(self)@.ek == old(self)@.ek
                &&& final(self)@.dk == old(self)@.dk
            },
    {
        let old_round = self.current_round;
        if self.current_dk.is_some() && self.current_ek.len() > 0 {
            let sealed = RevealedRoundKey { round: old_round, ek_bytes: clone_bytes(&self.current_ek), dk_bytes: Vec::new() };
            revealed_map_insert(&mut self.revealed_keys, old_round, sealed);
        }
        match mlkem768_generate() {
            Err(_) => Err(ThresholdError::KeyGeneration),
            Ok(pair) => {
                let (dk_bytes, ek_bytes) = pair;
                self.current_ek = clone_bytes(&ek_bytes);
                self.current_dk = Some(dk_bytes);
                self.current_round = round;
                Ok(ek_bytes)
            },
        }
    }

    /// Decrypts the payload of `etx` with the active private key, decodes it
    /// and checks it against its commitment.
    pub fn decrypt_payload(&self, etx: &EncryptedTransaction) -> (r: Result<PrivateTxPayload, ThresholdError>)
        requires
            self.wf(),
        ensures
            self@.dk is None ==> r == Err::<PrivateTxPayload, ThresholdError>(ThresholdError::DecapsulationKeyMissing),
            self@.dk matches Some(dk) ==> r == Err::<PrivateTxPayload, ThresholdError>(ThresholdError::Decapsulation)
                || opened_view(r) == opened_payload(
                    etx.encrypted_payload@,
                    mlkem768_shared_secret(dk, etx.kem_ciphertext@),
                    etx.payload_commitment@,
                ),
    {
        match &self.current_dk {
            None => Err(ThresholdError::DecapsulationKeyMissing),
            Some(dk) => match mlkem768_decapsulate(dk.as_slice(), etx.kem_ciphertext.as_slice()) {
                None => Err(ThresholdError::Decapsulation),
                Some(Err(_)) => Err(ThresholdError::Decapsulation),
                Some(Ok(secret)) => open_payload(secret.as_slice(), etx),
            },
        }
    }

    /// The plain transaction that `etx` stands for, once its payload is
    /// decrypted; stamped with the current time.
    pub fn finalize_transaction(&self, etx: &EncryptedTransaction) -> (r: Result<Transaction, ThresholdError>)
        requires
            self.wf(),
        ensures
            self@.dk is None ==> r == Err::<Transaction, ThresholdError>(ThresholdError::DecapsulationKeyMissing),
            r matches Err(e) ==> self@.dk is None || e == ThresholdError::Decapsulation || self.opened_with_key(etx)
                == Err::<PayloadView, ThresholdError>(e),
            r matches Ok(tx) ==> exists|payload: PayloadView| {
                &&& self.decrypt_payload_ok(etx, payload)
                &&& tx@.sender == etx.sender@
                &&& tx@.receiver == payload.receiver
                &&& tx@.amount == payload.amount
                &&& tx@.fee == etx.fee
                &&& tx@.nonce == etx.nonce
                &&& tx@.chain_id == etx.chain_id
                &&& tx@.read_set == seq![etx.sender@, payload.receiver]
                &&& tx@.write_set == seq![etx.sender@, payload.receiver]
                &&& tx@.data == payload.data
                &&& tx@.signature == etx.signature@
            },
    {
        let payload = match self.decrypt_payload(etx) {
            Ok(p) => p,
            Err(e) => return Err(e),
        };
        let now = utc_now_timestamp();
        let read_set = vec![etx.sender.clone(), payload.receiver.clone()];
        let write_set = vec![etx.sender.clone(), payload.receiver.clone()];
        let tx = Transaction {
            sender: etx.sender.clone(),
            receiver: payload.receiver.clone(),
            amount: payload.amount,
            fee: etx.fee,
            nonce: etx.nonce,
            chain_id: etx.chain_id,
            read_set,
            write_set,
            data: clone_bytes(&payload.data),
            signature: clone_bytes(&etx.signature),
            timestamp: now as u64,
        };
        assert(tx@.read_set =~= seq![etx.sender@, payload.receiver@]);
        assert(tx@.write_set =~= seq![etx.sender@, payload.receiver@]);
        assert(self.decrypt_payload_ok(etx, payload@));
        Ok(tx)
    }

    /// Opening the payload of `etx` with the secret that the active private
    /// key derives from its ciphertext.
    pub open spec fn opened_with_key(&self, etx: &EncryptedTransaction) -> Result<PayloadView, ThresholdError> {
        match self@.dk {
            Some(dk) => opened_payload(
                etx.encrypted_payload@,
                mlkem768_shared_secret(dk, etx.kem_ciphertext@),
                etx.payload_commitment@,
            ),
            None => Err(ThresholdError::DecapsulationKeyMissing),
        }
    }

    /// `decrypt_payload` may give `payload` for `etx`: with the active key,
    /// opening succeeds with that payload.
    pub open spec fn decrypt_payload_ok(&self, etx: &EncryptedTransaction, payload: PayloadView) -> bool {
        self@.dk is Some && self.opened_with_key(etx) == Ok::<PayloadView, ThresholdError>(payload)
    }
}

} // verus!
