//! Every item through which the library reaches std or an outside crate
//! without a proof: the wrappers, the declared outside types and the names
//! given to results that only the outside code computes.

use vstd::prelude::*;
use aws_lc_rs::encoding::AsBigEndian;
use crate::chain::{EncryptedTransaction, EtxView, RevealedRoundKey, RevealedKeyView, Transaction, TxView};
use crate::consensus::{Certificate, CertificateView, Vertex, VertexView};

verus! {

/// Seconds since the Unix epoch, read from `std::time::SystemTime::now`.
/// Nothing is stated of the result: it is the machine's clock.
#[verifier::external_body]
pub(crate) fn unix_now_secs() -> (t: u64) {
    std::time::SystemTime::now()
        .duration_since(std::time::UNIX_EPOCH)
        .unwrap_or_default()
        .as_secs()
}


/// Value of a hexadecimal digit, either case; `None` for any other character.
pub open spec fn hex_digit_value(c: char) -> Option<u8> {
    if '0' <= c && c <= '9' {
        Some((c as int - '0' as int) as u8)
    } else if 'a' <= c && c <= 'f' {
        Some((c as int - 'a' as int + 10) as u8)
    } else if 'A' <= c && c <= 'F' {
        Some((c as int - 'A' as int + 10) as u8)
    } else {
        None
    }
}

/// Bytes written by the hexadecimal text `s`, two digits per byte, high digit
/// first; `None` for an odd length or a character that is not a digit.
pub open spec fn hex_decoded(s: Seq<char>) -> Option<Seq<u8>>
    decreases s.len(),
{
    if s.len() == 0 {
        Some(Seq::empty())
    } else if s.len() == 1 {
        None
    } else {
        match (hex_digit_value(s[0]), hex_digit_value(s[1]), hex_decoded(s.subrange(2, s.len() as int))) {
            (Some(hi), Some(lo), Some(rest)) => Some(seq![(hi * 16 + lo) as u8] + rest),
            _ => None,
        }
    }
}

/// `hex::decode` on the text of `s`: the decoded bytes, or `None` when
/// `s` is not hexadecimal of even length (its error says which).
#[verifier::external_body]
pub(crate) fn hex_decode(s: &str) -> (r: Option<Vec<u8>>)
    ensures
        match (r, hex_decoded(s@)) {
            (Some(v), Some(d)) => v@ == d,
            (None, None) => true,
            _ => false,
        },
{
    hex::decode(s).ok()
}

/// Lowercase hexadecimal digit for a value below 16.
pub open spec fn hex_digit_char(v: u8) -> char {
    if v < 10 { (v + '0' as u8) as char } else { (v - 10 + 'a' as u8) as char }
}

/// Lowercase hexadecimal text of `b`, two digits per byte, high digit first.
pub open spec fn hex_encoded(b: Seq<u8>) -> Seq<char>
    decreases b.len(),
{
    if b.len() == 0 {
        Seq::empty()
    } else {
        seq![hex_digit_char(b[0] / 16), hex_digit_char(b[0] % 16)] + hex_encoded(b.subrange(1, b.len() as int))
    }
}

/// `hex::encode`: the lowercase hexadecimal text of `b`.
#[verifier::external_body]
pub(crate) fn hex_encode(b: &[u8]) -> (s: String)
    ensures
        s@ == hex_encoded(b@),
{
    hex::encode(b)
}

#[verifier::external_type_specification]
#[verifier::external_body]
pub struct ExUnspecified(aws_lc_rs::error::Unspecified);

/// Whether ML-DSA-65 accepts `signature` on `message` under the encoded
/// public key `public_key`; the verification in aws-lc depends on these alone.
pub uninterp spec fn mldsa65_accepts(public_key: Seq<u8>, message: Seq<u8>, signature: Seq<u8>) -> bool;

/// `UnparsedPublicKey::new(&ML_DSA_65, public_key).verify(message, signature)`
/// of aws-lc-rs: `Ok` exactly when the signature is accepted.
#[verifier::external_body]
pub(crate) fn mldsa65_verify(public_key: &[u8], message: &[u8], signature: &[u8]) -> (r: Result<(), aws_lc_rs::error::Unspecified>)
    ensures
        r is Ok == mldsa65_accepts(public_key@, message@, signature@),
{
    aws_lc_rs::signature::UnparsedPublicKey::new(&aws_lc_rs::unstable::signature::ML_DSA_65, public_key)
        .verify(message, signature)
}


/// `n` bytes from the operating system's generator (`OsRng::fill_bytes` of
/// rand). Only the length is stated: the bytes are random. `fill_bytes`
/// panics only when the operating system cannot supply randomness, which
/// no argument can rule out.
#[verifier::external_body]
pub(crate) fn os_random_bytes(n: usize) -> (v: Vec<u8>)
    ensures
        v.len() == n,
{
    let mut v = vec![0u8; n];
    rand::RngCore::fill_bytes(&mut rand::rngs::OsRng, &mut v);
    v
}


/// BLAKE3 digest (32 bytes) of `data`, as `blake3::hash` computes it.
pub uninterp spec fn blake3_digest(data: Seq<u8>) -> Seq<u8>;

/// `blake3::hash(data)`, as bytes.
#[verifier::external_body]
pub(crate) fn blake3_hash(data: &[u8]) -> (r: [u8; 32])
    ensures
        r@ == blake3_digest(data@),
{
    *blake3::hash(data).as_bytes()
}

/// The 32-byte secret that ML-KEM-768 decapsulation derives from the
/// ciphertext `ct` under the encoded private key `dk`; decapsulation is
/// deterministic in these two.
pub uninterp spec fn mlkem768_shared_secret(dk: Seq<u8>, ct: Seq<u8>) -> Seq<u8>;

/// `DecapsulationKey::generate(&ML_KEM_768)`, handed out as the encoded
/// private key (`key_bytes`, 2400 bytes) and the encoded public key
/// (`encapsulation_key` then `key_bytes`, 1184 bytes): the buffers are sized
/// by the algorithm and the source asserts the sizes written equal them.
/// The key pair is random.
#[verifier::external_body]
pub(crate) fn mlkem768_generate() -> (r: Result<(Vec<u8>, Vec<u8>), aws_lc_rs::error::Unspecified>)
    ensures
        r is Ok ==> r->Ok_0.0.len() == 2400 && r->Ok_0.1.len() == 1184,
{
    let dk = aws_lc_rs::kem::DecapsulationKey::generate(&aws_lc_rs::kem::ML_KEM_768)?;
    let dk_bytes = dk.key_bytes()?.as_ref().to_vec();
    let ek_bytes = dk.encapsulation_key()?.key_bytes()?.as_ref().to_vec();
    Ok((dk_bytes, ek_bytes))
}

/// `EncapsulationKey::new(&ML_KEM_768, ek)` then `encapsulate`: `None` when
/// the key is rejected, which it is whenever it is not 1184 bytes long;
/// otherwise the outcome of encapsulation, a random (ciphertext, shared
/// secret) pair of 1088 and 32 bytes.
#[verifier::external_body]
pub(crate) fn mlkem768_encapsulate(ek: &[u8]) -> (r: Option<Result<(Vec<u8>, Vec<u8>), aws_lc_rs::error::Unspecified>>)
    ensures
        ek.len() != 1184 ==> r is None,
        r matches Some(Ok(p)) ==> p.0.len() == 1088 && p.1.len() == 32,
{
    match aws_lc_rs::kem::EncapsulationKey::new(&aws_lc_rs::kem::ML_KEM_768, ek) {
        Err(_) => None,
        Ok(key) => Some(key.encapsulate().map(|(ct, ss)| (ct.as_ref().to_vec(), ss.as_ref().to_vec()))),
    }
}

/// `DecapsulationKey::new(&ML_KEM_768, dk)` then `decapsulate(ct)`: `None`
/// when the private key is rejected, which it is whenever it is not 2400
/// bytes long; otherwise the outcome of decapsulation, whose secret is
/// `mlkem768_shared_secret(dk, ct)`.
#[verifier::external_body]
pub(crate) fn mlkem768_decapsulate(dk: &[u8], ct: &[u8]) -> (r: Option<Result<Vec<u8>, aws_lc_rs::error::Unspecified>>)
    ensures
        dk.len() != 2400 ==> r is None,
        r matches Some(Ok(ss)) ==> ss@ == mlkem768_shared_secret(dk@, ct@) && ss.len() == 32,
{
    match aws_lc_rs::kem::DecapsulationKey::new(&aws_lc_rs::kem::ML_KEM_768, dk) {
        Err(_) => None,
        Ok(key) => Some(key.decapsulate(aws_lc_rs::kem::Ciphertext::from(ct)).map(|ss| ss.as_ref().to_vec())),
    }
}


#[verifier::external_type_specification]
#[verifier::external_body]
#[verifier::reject_recursive_types(K)]
#[verifier::reject_recursive_types(V)]
#[verifier::reject_recursive_types(S)]
pub struct ExDashMap<K, V, S>(dashmap::DashMap<K, V, S>);

/// Concurrent map of revealed round keys, by round.
pub type RevealedKeyMap = dashmap::DashMap<u64, RevealedRoundKey>;

/// The entries of the map of revealed round keys, by round.
pub uninterp spec fn revealed_entries(m: RevealedKeyMap) -> Map<u64, RevealedKeyView>;

/// `DashMap::new`: an empty map.
#[verifier::external_body]
pub(crate) fn revealed_map_new() -> (r: RevealedKeyMap)
    ensures
        revealed_entries(r).dom().is_empty(),
{
    dashmap::DashMap::new()
}

/// `DashMap::insert`: the entry for `round` becomes `key`, replacing any
/// earlier one; the other entries stay.
#[verifier::external_body]
pub(crate) fn revealed_map_insert(m: &mut RevealedKeyMap, round: u64, key: RevealedRoundKey)
    ensures
        revealed_entries(*final(m)) == revealed_entries(*old(m)).insert(round, key@),
{
    m.insert(round, key);
}

/// `DashMap::get`, the entry handed out as a copy.
#[verifier::external_body]
pub(crate) fn revealed_map_get(m: &RevealedKeyMap, round: u64) -> (r: Option<RevealedRoundKey>)
    ensures
        r is None <==> !revealed_entries(*m).contains_key(round),
        r matches Some(k) ==> k@ == revealed_entries(*m)[round],
{
    m.get(&round).map(|e| e.value().clone())
}

/// `chrono::Utc::now().timestamp()`: seconds since the Unix epoch by the
/// machine's clock; nothing is stated of it.
#[verifier::external_body]
pub(crate) fn utc_now_timestamp() -> (t: i64) {
    chrono::Utc::now().timestamp()
}


/// `std::str::from_utf8`, the text copied out: `Some` exactly when `bytes`
/// is valid UTF-8, and then the text that the bytes encode.
#[verifier::external_body]
pub(crate) fn utf8_text(bytes: &[u8]) -> (r: Option<String>)
    ensures
        r is Some <==> vstd::utf8::valid_utf8(bytes@),
        r matches Some(s) ==> s@ == vstd::utf8::decode_utf8(bytes@),
{
    std::str::from_utf8(bytes).ok().map(|s| s.to_owned())
}


/// SHA-256 digest (32 bytes) of `data`.
pub uninterp spec fn sha256_digest(data: Seq<u8>) -> Seq<u8>;

/// `Sha256::digest` of sha2: the SHA-256 digest of `data`.
#[verifier::external_body]
pub(crate) fn sha256(data: &[u8]) -> (r: [u8; 32])
    ensures
        r@ == sha256_digest(data@),
{
    let d = <sha2::Sha256 as sha2::Digest>::digest(data);
    let mut out = [0u8; 32];
    out.copy_from_slice(&d);
    out
}

#[verifier::external_type_specification]
#[verifier::external_body]
pub struct ExKeyRejected(aws_lc_rs::error::KeyRejected);

/// Whether `pkcs8` is a PKCS#8 document that aws-lc accepts as an ML-DSA-65
/// private key.
pub uninterp spec fn mldsa65_pkcs8_valid(pkcs8: Seq<u8>) -> bool;

/// The encoded ML-DSA-65 public key of the private key in `pkcs8`.
pub uninterp spec fn mldsa65_public_key(pkcs8: Seq<u8>) -> Seq<u8>;

/// `PqdsaKeyPair::generate(&ML_DSA_65_SIGNING)` exported by `to_pkcs8v1`:
/// a random key pair as a PKCS#8 document, which `from_pkcs8` accepts.
#[verifier::external_body]
pub(crate) fn mldsa65_generate() -> (r: Result<Vec<u8>, aws_lc_rs::error::Unspecified>)
    ensures
        r matches Ok(b) ==> mldsa65_pkcs8_valid(b@),
{
    let kp = aws_lc_rs::unstable::signature::PqdsaKeyPair::generate(&aws_lc_rs::unstable::signature::ML_DSA_65_SIGNING)?;
    Ok(kp.to_pkcs8v1()?.as_ref().to_vec())
}

/// `PqdsaKeyPair::from_pkcs8(&ML_DSA_65_SIGNING, pkcs8)`, the key dropped:
/// `Ok` exactly when the document is accepted.
#[verifier::external_body]
pub(crate) fn mldsa65_check_pkcs8(pkcs8: &[u8]) -> (r: Result<(), aws_lc_rs::error::KeyRejected>)
    ensures
        r is Ok == mldsa65_pkcs8_valid(pkcs8@),
{
    aws_lc_rs::unstable::signature::PqdsaKeyPair::from_pkcs8(&aws_lc_rs::unstable::signature::ML_DSA_65_SIGNING, pkcs8).map(|_| ())
}

/// `PqdsaKeyPair::from_pkcs8` then `public_key`: `None` when the document is
/// refused, else the encoded public key.
#[verifier::external_body]
pub(crate) fn mldsa65_public_key_bytes(pkcs8: &[u8]) -> (r: Option<Vec<u8>>)
    ensures
        r is Some == mldsa65_pkcs8_valid(pkcs8@),
        r matches Some(pk) ==> pk@ == mldsa65_public_key(pkcs8@),
{
    aws_lc_rs::unstable::signature::PqdsaKeyPair::from_pkcs8(&aws_lc_rs::unstable::signature::ML_DSA_65_SIGNING, pkcs8)
        .ok()
        .map(|kp| aws_lc_rs::signature::KeyPair::public_key(&kp).as_ref().to_vec())
}

/// `PqdsaKeyPair::from_pkcs8` then `sign` into a buffer of the algorithm's
/// signature length: `None` when the document is refused; a signature that
/// comes back is one that verification under the key pair's public key
/// accepts. The signature is randomized.
#[verifier::external_body]
pub(crate) fn mldsa65_sign(pkcs8: &[u8], message: &[u8]) -> (r: Option<Result<Vec<u8>, aws_lc_rs::error::Unspecified>>)
    ensures
        r is Some == mldsa65_pkcs8_valid(pkcs8@),
        r matches Some(Ok(sig)) ==> mldsa65_accepts(mldsa65_public_key(pkcs8@), message@, sig@),
{
    match aws_lc_rs::unstable::signature::PqdsaKeyPair::from_pkcs8(&aws_lc_rs::unstable::signature::ML_DSA_65_SIGNING, pkcs8) {
        Err(_) => None,
        Ok(kp) => {
            let mut sig = vec![0u8; aws_lc_rs::unstable::signature::ML_DSA_65_SIGNING.signature_len()];
            Some(kp.sign(message, &mut sig).map(|_| sig))
        },
    }
}

#[verifier::external_type_specification]
#[verifier::external_body]
pub struct ExEphemeralPrivateKey(aws_lc_rs::agreement::EphemeralPrivateKey);

/// `EphemeralPrivateKey::generate(&X25519, &SystemRandom::new())`: a random
/// X25519 private key.
#[verifier::external_body]
pub(crate) fn x25519_generate() -> (r: Result<aws_lc_rs::agreement::EphemeralPrivateKey, aws_lc_rs::error::Unspecified>) {
    aws_lc_rs::agreement::EphemeralPrivateKey::generate(&aws_lc_rs::agreement::X25519, &aws_lc_rs::rand::SystemRandom::new())
}

/// `agree_ephemeral` of `private_key` with the X25519 public key `peer`, the
/// shared secret copied out. Nothing is stated of the secret: the private
/// key is random and opaque here.
#[verifier::external_body]
pub(crate) fn x25519_agree(private_key: aws_lc_rs::agreement::EphemeralPrivateKey, peer: &[u8]) -> (r: Result<Vec<u8>, aws_lc_rs::error::Unspecified>) {
    aws_lc_rs::agreement::agree_ephemeral(
        private_key,
        &aws_lc_rs::agreement::UnparsedPublicKey::new(&aws_lc_rs::agreement::X25519, peer),
        aws_lc_rs::error::Unspecified,
        |secret| Ok(secret.to_vec()),
    )
}

/// The X25519 public key of the private key whose seed is `seed`; X25519
/// computes it from the seed alone.
pub uninterp spec fn x25519_public_key_of(seed: Seq<u8>) -> Seq<u8>;

/// The X25519 shared secret of the private key whose seed is `seed` with
/// the peer's public key `peer`; X25519 computes it from these two alone.
pub uninterp spec fn x25519_shared_secret(seed: Seq<u8>, peer: Seq<u8>) -> Seq<u8>;

/// `agreement::PrivateKey::generate(&X25519)` of aws-lc-rs, handed out as
/// its seed (`as_be_bytes`). Nothing is stated of the seed: it is random.
#[verifier::external_body]
pub(crate) fn x25519_generate_seed() -> (r: Result<Vec<u8>, aws_lc_rs::error::Unspecified>) {
    let key = aws_lc_rs::agreement::PrivateKey::generate(&aws_lc_rs::agreement::X25519)?;
    let seed: aws_lc_rs::encoding::Curve25519SeedBin<'static> = key.as_be_bytes()?;
    Ok(seed.as_ref().to_vec())
}

/// `agreement::PrivateKey::from_private_key(&X25519, seed)` then
/// `compute_public_key`, the bytes copied out: on success they are
/// `x25519_public_key_of(seed)`.
#[verifier::external_body]
pub(crate) fn x25519_public_from_seed(seed: &[u8]) -> (r: Result<Vec<u8>, aws_lc_rs::error::Unspecified>)
    ensures
        r matches Ok(pk) ==> pk@ == x25519_public_key_of(seed@),
{
    let key = aws_lc_rs::agreement::PrivateKey::from_private_key(&aws_lc_rs::agreement::X25519, seed)
        .map_err(|_| aws_lc_rs::error::Unspecified)?;
    Ok(key.compute_public_key()?.as_ref().to_vec())
}

/// `agreement::PrivateKey::from_private_key(&X25519, seed)` then `agree`
/// with the X25519 public key `peer`, the secret copied out: on success it
/// is `x25519_shared_secret(seed, peer)`.
#[verifier::external_body]
pub(crate) fn x25519_agree_seed(seed: &[u8], peer: &[u8]) -> (r: Result<Vec<u8>, aws_lc_rs::error::Unspecified>)
    ensures
        r matches Ok(s) ==> s@ == x25519_shared_secret(seed@, peer@),
{
    let key = aws_lc_rs::agreement::PrivateKey::from_private_key(&aws_lc_rs::agreement::X25519, seed)
        .map_err(|_| aws_lc_rs::error::Unspecified)?;
    aws_lc_rs::agreement::agree(
        &key,
        aws_lc_rs::agreement::UnparsedPublicKey::new(&aws_lc_rs::agreement::X25519, peer),
        aws_lc_rs::error::Unspecified,
        |secret| Ok(secret.to_vec()),
    )
}

#[verifier::external_type_specification]
#[verifier::external_body]
#[verifier::reject_recursive_types(K)]
#[verifier::reject_recursive_types(S)]
pub struct ExDashSet<K, S>(dashmap::DashSet<K, S>);

/// Concurrent map of DAG vertices, by identifier.
pub type VertexMap = dashmap::DashMap<[u8; 32], Vertex>;

/// The vertices held, by identifier.
pub uninterp spec fn vertex_entries(m: VertexMap) -> Map<Seq<u8>, VertexView>;

/// `DashMap::new`: no vertices.
#[verifier::external_body]
pub(crate) fn vertex_map_new() -> (r: VertexMap)
    ensures
        vertex_entries(r).dom().is_empty(),
{
    dashmap::DashMap::new()
}

/// `DashMap::insert`: `v` is held under `id`, replacing any earlier vertex.
#[verifier::external_body]
pub(crate) fn vertex_map_insert(m: &mut VertexMap, id: [u8; 32], v: Vertex)
    ensures
        vertex_entries(*final(m)) == vertex_entries(*old(m)).insert(id@, v@),
{
    m.insert(id, v);
}

/// `DashMap::get`, the vertex copied out.
#[verifier::external_body]
pub(crate) fn vertex_map_get(m: &VertexMap, id: &[u8; 32]) -> (r: Option<Vertex>)
    ensures
        r is None <==> !vertex_entries(*m).contains_key(id@),
        r matches Some(v) ==> v@ == vertex_entries(*m)[id@],
{
    m.get(id).map(|e| e.value().clone())
}

/// The identifiers held, read through `DashMap::iter` in the map's own
/// order: each once, and all of them.
#[verifier::external_body]
pub(crate) fn vertex_map_ids(m: &VertexMap) -> (r: Vec<[u8; 32]>)
    ensures
        r@.map_values(|id: [u8; 32]| id@).no_duplicates(),
        r@.map_values(|id: [u8; 32]| id@).to_set() == vertex_entries(*m).dom(),
{
    m.iter().map(|e| *e.key()).collect()
}

/// `DashMap::len`: the number of vertices held.
#[verifier::external_body]
pub(crate) fn vertex_map_len(m: &VertexMap) -> (r: usize)
    ensures
        r == vertex_entries(*m).dom().len(),
{
    m.len()
}

/// Concurrent map of certificates, by round.
pub type CertificateMap = dashmap::DashMap<u64, Vec<Certificate>>;

/// The certificates held for each round, in the order they were added.
pub uninterp spec fn certificate_entries(m: CertificateMap) -> Map<u64, Seq<CertificateView>>;

/// `DashMap::new`: no certificates.
#[verifier::external_body]
pub(crate) fn certificate_map_new() -> (r: CertificateMap)
    ensures
        certificate_entries(r).dom().is_empty(),
{
    dashmap::DashMap::new()
}

/// `entry(round).or_insert_with(Vec::new).push(cert)`: `cert` joins the end
/// of its round's list.
#[verifier::external_body]
pub(crate) fn certificate_map_push(m: &mut CertificateMap, round: u64, cert: Certificate)
    ensures
        certificate_entries(*final(m)) == certificate_entries(*old(m)).insert(
            round,
            if certificate_entries(*old(m)).contains_key(round) { certificate_entries(*old(m))[round] } else { Seq::empty() }.push(cert@),
        ),
{
    m.entry(round).or_insert_with(Vec::new).push(cert);
}

/// `get(round)` with the list copied out, empty for a round with none.
#[verifier::external_body]
pub(crate) fn certificate_map_get(m: &CertificateMap, round: u64) -> (r: Vec<Certificate>)
    ensures
        r@.map_values(|c: Certificate| c@) == if certificate_entries(*m).contains_key(round) {
            certificate_entries(*m)[round]
        } else {
            Seq::empty()
        },
{
    m.get(&round).map(|c| c.value().clone()).unwrap_or_default()
}

/// Concurrent set of committed vertex identifiers.
pub type CommittedSet = dashmap::DashSet<[u8; 32]>;

/// The identifiers in the set.
pub uninterp spec fn committed_members(s: CommittedSet) -> Set<Seq<u8>>;

/// `DashSet::new`: the empty set.
#[verifier::external_body]
pub(crate) fn committed_set_new() -> (r: CommittedSet)
    ensures
        committed_members(r).is_empty(),
{
    dashmap::DashSet::new()
}

/// `DashSet::insert`: `id` joins the set.
#[verifier::external_body]
pub(crate) fn committed_set_insert(s: &mut CommittedSet, id: [u8; 32])
    ensures
        committed_members(*final(s)) == committed_members(*old(s)).insert(id@),
{
    s.insert(id);
}

/// `DashSet::contains`.
#[verifier::external_body]
pub(crate) fn committed_set_contains(s: &CommittedSet, id: &[u8; 32]) -> (r: bool)
    ensures
        r == committed_members(*s).contains(id@),
{
    s.contains(id)
}

/// `DashSet::len`: the number of identifiers in the set.
#[verifier::external_body]
pub(crate) fn committed_set_len(s: &CommittedSet) -> (r: usize)
    ensures
        r == committed_members(*s).len(),
{
    s.len()
}

/// The identifiers in the set, read through `DashSet::iter` in the set's
/// own order: each once, and all of them.
#[verifier::external_body]
pub(crate) fn committed_set_ids(s: &CommittedSet) -> (r: Vec<[u8; 32]>)
    ensures
        r@.map_values(|id: [u8; 32]| id@).no_duplicates(),
        r@.map_values(|id: [u8; 32]| id@).to_set() == committed_members(*s),
{
    s.iter().map(|e| *e.key()).collect()
}

/// Each of `items` is the value of a different entry of `m`.
pub open spec fn drawn_from_txs(items: Seq<TxView>, m: Map<Seq<u8>, TxView>) -> bool {
    exists|keys: Seq<Seq<u8>>| {
        &&& keys.len() == items.len()
        &&& keys.no_duplicates()
        &&& forall|i: int| 0 <= i < keys.len() ==> m.contains_key(#[trigger] keys[i]) && items[i] == m[keys[i]]
    }
}

/// Each of `items` is the value of a different entry of `m`.
pub open spec fn drawn_from_etxs(items: Seq<EtxView>, m: Map<Seq<u8>, EtxView>) -> bool {
    exists|keys: Seq<Seq<u8>>| {
        &&& keys.len() == items.len()
        &&& keys.no_duplicates()
        &&& forall|i: int| 0 <= i < keys.len() ==> m.contains_key(#[trigger] keys[i]) && items[i] == m[keys[i]]
    }
}

/// Concurrent map of pending transactions, by digest.
pub type PendingTxMap = dashmap::DashMap<[u8; 32], Transaction>;

/// The pending transactions, by digest.
pub uninterp spec fn pending_tx_entries(m: PendingTxMap) -> Map<Seq<u8>, TxView>;

/// `DashMap::new`: no pending transactions.
#[verifier::external_body]
pub(crate) fn pending_tx_new() -> (r: PendingTxMap)
    ensures
        pending_tx_entries(r).dom().is_empty(),
{
    dashmap::DashMap::new()
}

/// `DashMap::insert`.
#[verifier::external_body]
pub(crate) fn pending_tx_insert(m: &mut PendingTxMap, id: [u8; 32], tx: Transaction)
    ensures
        pending_tx_entries(*final(m)) == pending_tx_entries(*old(m)).insert(id@, tx@),
{
    m.insert(id, tx);
}

/// `DashMap::remove`, the removed entry dropped.
#[verifier::external_body]
pub(crate) fn pending_tx_remove(m: &mut PendingTxMap, id: &[u8; 32])
    ensures
        pending_tx_entries(*final(m)) == pending_tx_entries(*old(m)).remove(id@),
{
    m.remove(id);
}

/// `DashMap::len`.
#[verifier::external_body]
pub(crate) fn pending_tx_len(m: &PendingTxMap) -> (r: usize)
    ensures
        r == pending_tx_entries(*m).dom().len(),
{
    m.len()
}

/// `iter().take(n)` with the transactions copied out: up to `n` pending
/// transactions in the map's own order, each from a different entry.
#[verifier::external_body]
pub(crate) fn pending_tx_take(m: &PendingTxMap, n: usize) -> (r: Vec<Transaction>)
    ensures
        r.len() <= n,
        r.len() < n ==> r.len() == pending_tx_entries(*m).dom().len(),
        drawn_from_txs(r@.map_values(|t: Transaction| t@), pending_tx_entries(*m)),
{
    m.iter().take(n).map(|e| e.value().clone()).collect()
}

/// Concurrent map of pending encrypted transactions, by digest.
pub type PendingEtxMap = dashmap::DashMap<[u8; 32], EncryptedTransaction>;

/// The pending encrypted transactions, by digest.
pub uninterp spec fn pending_etx_entries(m: PendingEtxMap) -> Map<Seq<u8>, EtxView>;

/// `DashMap::new`: no pending encrypted transactions.
#[verifier::external_body]
pub(crate) fn pending_etx_new() -> (r: PendingEtxMap)
    ensures
        pending_etx_entries(r).dom().is_empty(),
{
    dashmap::DashMap::new()
}

/// `DashMap::insert`.
#[verifier::external_body]
pub(crate) fn pending_etx_insert(m: &mut PendingEtxMap, id: [u8; 32], etx: EncryptedTransaction)
    ensures
        pending_etx_entries(*final(m)) == pending_etx_entries(*old(m)).insert(id@, etx@),
{
    m.insert(id, etx);
}

/// `DashMap::remove`, the removed entry dropped.
#[verifier::external_body]
pub(crate) fn pending_etx_remove(m: &mut PendingEtxMap, id: &[u8; 32])
    ensures
        pending_etx_entries(*final(m)) == pending_etx_entries(*old(m)).remove(id@),
{
    m.remove(id);
}

/// `DashMap::len`.
#[verifier::external_body]
pub(crate) fn pending_etx_len(m: &PendingEtxMap) -> (r: usize)
    ensures
        r == pending_etx_entries(*m).dom().len(),
{
    m.len()
}

/// `iter().take(n)` with the encrypted transactions copied out: up to `n`
/// of them in the map's own order, each from a different entry.
#[verifier::external_body]
pub(crate) fn pending_etx_take(m: &PendingEtxMap, n: usize) -> (r: Vec<EncryptedTransaction>)
    ensures
        r.len() <= n,
        r.len() < n ==> r.len() == pending_etx_entries(*m).dom().len(),
        drawn_from_etxs(r@.map_values(|t: EncryptedTransaction| t@), pending_etx_entries(*m)),
{
    m.iter().take(n).map(|e| e.value().clone()).collect()
}


/// SHA-512 digest (64 bytes) of `data`.
pub uninterp spec fn sha512_digest(data: Seq<u8>) -> Seq<u8>;

/// `Sha512::digest` of sha2.
#[verifier::external_body]
pub(crate) fn sha512(data: &[u8]) -> (r: [u8; 64])
    ensures
        r@ == sha512_digest(data@),
{
    let d = <sha2::Sha512 as sha2::Digest>::digest(data);
    let mut out = [0u8; 64];
    out.copy_from_slice(&d);
    out
}

/// Canonical bytes of the scalar that 64 little-endian bytes reduce to
/// modulo the group order.
pub uninterp spec fn scalar_from_wide(b: Seq<u8>) -> Seq<u8>;

/// Whether 32 bytes are the canonical encoding of a scalar.
pub uninterp spec fn scalar_is_canonical(b: Seq<u8>) -> bool;

/// `Scalar::from_bytes_mod_order_wide(b).to_bytes()` of curve25519-dalek: a
/// reduced, hence canonical, scalar.
#[verifier::external_body]
pub(crate) fn scalar_reduce_wide(b: &[u8; 64]) -> (r: [u8; 32])
    ensures
        r@ == scalar_from_wide(b@),
        scalar_is_canonical(r@),
{
    curve25519_dalek::scalar::Scalar::from_bytes_mod_order_wide(b).to_bytes()
}

/// `Scalar::from_canonical_bytes(b)`, whether it succeeds.
#[verifier::external_body]
pub(crate) fn scalar_canonical(b: &[u8; 32]) -> (r: bool)
    ensures
        r == scalar_is_canonical(b@),
{
    bool::from(curve25519_dalek::scalar::Scalar::from_canonical_bytes(*b).is_some())
}

/// Canonical bytes of the product of two scalars.
pub uninterp spec fn scalar_product(a: Seq<u8>, b: Seq<u8>) -> Seq<u8>;

/// `Scalar * Scalar` on canonical scalars.
#[verifier::external_body]
pub(crate) fn scalar_mul(a: &[u8; 32], b: &[u8; 32]) -> (r: [u8; 32])
    requires
        scalar_is_canonical(a@),
        scalar_is_canonical(b@),
    ensures
        r@ == scalar_product(a@, b@),
        scalar_is_canonical(r@),
{
    let x = curve25519_dalek::scalar::Scalar::from_canonical_bytes(*a).unwrap();
    let y = curve25519_dalek::scalar::Scalar::from_canonical_bytes(*b).unwrap();
    (x * y).to_bytes()
}

/// Canonical bytes of the difference of two scalars.
pub uninterp spec fn scalar_difference(a: Seq<u8>, b: Seq<u8>) -> Seq<u8>;

/// `Scalar - Scalar` on canonical scalars.
#[verifier::external_body]
pub(crate) fn scalar_sub(a: &[u8; 32], b: &[u8; 32]) -> (r: [u8; 32])
    requires
        scalar_is_canonical(a@),
        scalar_is_canonical(b@),
    ensures
        r@ == scalar_difference(a@, b@),
        scalar_is_canonical(r@),
{
    let x = curve25519_dalek::scalar::Scalar::from_canonical_bytes(*a).unwrap();
    let y = curve25519_dalek::scalar::Scalar::from_canonical_bytes(*b).unwrap();
    (x - y).to_bytes()
}

/// Whether 32 bytes are the encoding of a Ristretto point.
pub uninterp spec fn point_is_valid(b: Seq<u8>) -> bool;

/// `CompressedRistretto(b).decompress()`, whether it succeeds.
#[verifier::external_body]
pub(crate) fn point_valid(b: &[u8; 32]) -> (r: bool)
    ensures
        r == point_is_valid(b@),
{
    curve25519_dalek::ristretto::CompressedRistretto(*b).decompress().is_some()
}

/// `RISTRETTO_BASEPOINT_COMPRESSED`: the encoding of the basepoint (the
/// source writes its 32 bytes out), which decompresses.
#[verifier::external_body]
pub(crate) fn ristretto_basepoint() -> (r: [u8; 32])
    ensures
        r@ == crate::ring::RISTRETTO_BASEPOINT_BYTES@,
        point_is_valid(r@),
{
    curve25519_dalek::constants::RISTRETTO_BASEPOINT_COMPRESSED.to_bytes()
}

/// Encoding of the basepoint times a scalar.
pub uninterp spec fn point_base_times(s: Seq<u8>) -> Seq<u8>;

/// `(RISTRETTO_BASEPOINT_POINT * s).compress()`.
#[verifier::external_body]
pub(crate) fn point_mul_base(s: &[u8; 32]) -> (r: [u8; 32])
    requires
        scalar_is_canonical(s@),
    ensures
        r@ == point_base_times(s@),
        point_is_valid(r@),
{
    let x = curve25519_dalek::scalar::Scalar::from_canonical_bytes(*s).unwrap();
    (curve25519_dalek::constants::RISTRETTO_BASEPOINT_POINT * x).compress().to_bytes()
}

/// Encoding of a point times a scalar.
pub uninterp spec fn point_times(p: Seq<u8>, s: Seq<u8>) -> Seq<u8>;

/// `(P * s).compress()` for the point `P` that `p` encodes.
#[verifier::external_body]
pub(crate) fn point_mul(p: &[u8; 32], s: &[u8; 32]) -> (r: [u8; 32])
    requires
        point_is_valid(p@),
        scalar_is_canonical(s@),
    ensures
        r@ == point_times(p@, s@),
        point_is_valid(r@),
{
    let pt = curve25519_dalek::ristretto::CompressedRistretto(*p).decompress().unwrap();
    let x = curve25519_dalek::scalar::Scalar::from_canonical_bytes(*s).unwrap();
    (pt * x).compress().to_bytes()
}

/// Encoding of the sum of two points.
pub uninterp spec fn point_sum(p: Seq<u8>, q: Seq<u8>) -> Seq<u8>;

/// `(P + Q).compress()`.
#[verifier::external_body]
pub(crate) fn point_add(p: &[u8; 32], q: &[u8; 32]) -> (r: [u8; 32])
    requires
        point_is_valid(p@),
        point_is_valid(q@),
    ensures
        r@ == point_sum(p@, q@),
        point_is_valid(r@),
{
    let x = curve25519_dalek::ristretto::CompressedRistretto(*p).decompress().unwrap();
    let y = curve25519_dalek::ristretto::CompressedRistretto(*q).decompress().unwrap();
    (x + y).compress().to_bytes()
}

/// Encoding of the point that 64 uniform bytes map to.
pub uninterp spec fn point_from_uniform(b: Seq<u8>) -> Seq<u8>;

/// `RistrettoPoint::from_uniform_bytes(b).compress()`.
#[verifier::external_body]
pub(crate) fn point_from_uniform_bytes(b: &[u8; 64]) -> (r: [u8; 32])
    ensures
        r@ == point_from_uniform(b@),
        point_is_valid(r@),
{
    curve25519_dalek::ristretto::RistrettoPoint::from_uniform_bytes(b).compress().to_bytes()
}


#[verifier::external_type_specification]
#[verifier::external_body]
pub struct ExWasmEngine(wasmi::Engine);

/// `Engine::new(&Config::default())` of wasmi.
#[verifier::external_body]
pub(crate) fn wasm_engine_new() -> (r: wasmi::Engine) {
    wasmi::Engine::new(&wasmi::Config::default())
}

/// Whether wasmi, with its default configuration, accepts `bytecode` as a
/// WASM module.
pub uninterp spec fn wasm_module_accepted(bytecode: Seq<u8>) -> bool;

/// `Module::new(engine, bytecode)` of wasmi, the module dropped: `Ok` exactly
/// when the bytecode is accepted, else the error's text. The engine is one
/// made with the default configuration.
#[verifier::external_body]
pub(crate) fn wasm_module_check(engine: &wasmi::Engine, bytecode: &[u8]) -> (r: Result<(), String>)
    ensures
        r is Ok == wasm_module_accepted(bytecode@),
{
    wasmi::Module::new(engine, bytecode).map(|_| ()).map_err(|e| e.to_string())
}

/// The text of `chars`, through `String::from_iter` of std.
#[verifier::external_body]
pub(crate) fn text_from_chars(chars: &Vec<char>) -> (s: String)
    ensures
        s@ == chars@,
{
    chars.iter().collect()
}


/// Bytes a postcard variable-length `usize` may take: 10 for 64 bits, 5 for 32.
pub open spec fn varint_usize_max_len() -> nat {
    if usize::BITS == 64 { 10 } else { 5 }
}

/// Largest last byte of a postcard variable-length `usize` that takes all
/// of `varint_usize_max_len()` bytes: the bits of the type left over.
pub open spec fn varint_usize_max_last() -> u8 {
    if usize::BITS == 64 { 1 } else { 15 }
}

/// The postcard variable-length `usize` whose byte number `i` (from 0) is
/// at `b[i]`, with the number of bytes read up to its end: each byte gives
/// seven bits, lowest first, and has its top bit set when more follow.
/// `None` when the bytes end first, when it would take more than
/// `varint_usize_max_len()` bytes, or when its last possible byte holds bits
/// that do not fit.
pub open spec fn varint_usize_at(b: Seq<u8>, i: nat) -> Option<(nat, nat)>
    decreases varint_usize_max_len() - i,
{
    if i >= varint_usize_max_len() || i >= b.len() {
        None
    } else if b[i as int] < 128 {
        if i + 1 == varint_usize_max_len() && b[i as int] > varint_usize_max_last() {
            None
        } else {
            Some((b[i as int] as nat, i + 1))
        }
    } else {
        match varint_usize_at(b, i + 1) {
            Some((rest, end)) => Some(((b[i as int] - 128) as nat + 128 * rest, end)),
            None => None,
        }
    }
}

/// The byte string that postcard's encoding `b` holds: a length as a
/// variable-length `usize`, then that many bytes (later bytes ignored);
/// `None` when the length is malformed or the bytes are too few.
pub open spec fn postcard_byte_string(b: Seq<u8>) -> Option<Seq<u8>> {
    match varint_usize_at(b, 0) {
        Some((len, start)) => if start + len <= b.len() {
            Some(b.subrange(start as int, (start + len) as int))
        } else {
            None
        },
        None => None,
    }
}

/// `postcard::from_bytes::<Vec<u8>>(b)`: serde reads a `Vec<u8>` as a
/// sequence, which postcard gives as its length (`try_take_varint_usize`)
/// followed by one byte per element (`pop`), ignoring what follows.
#[verifier::external_body]
pub(crate) fn postcard_decode_bytes(b: &[u8]) -> (r: Option<Vec<u8>>)
    ensures
        match (r, postcard_byte_string(b@)) {
            (Some(v), Some(w)) => v@ == w,
            (None, None) => true,
            _ => false,
        },
{
    postcard::from_bytes::<Vec<u8>>(b).ok()
}

} // verus!
