//! Linkable ring signatures (LSAG) over Ristretto255. Scalars and points
//! are held as their 32-byte canonical encodings; the group operations are
//! curve25519-dalek's.

use vstd::prelude::*;
use crate::outside::{
    os_random_bytes, point_add, point_base_times, point_from_uniform, point_from_uniform_bytes, point_is_valid,
    point_mul, point_mul_base, point_sum, point_times, point_valid, ristretto_basepoint, scalar_canonical,
    scalar_difference, scalar_from_wide, scalar_is_canonical, scalar_mul, scalar_product, scalar_reduce_wide,
    scalar_sub, sha512, sha512_digest,
};

verus! {

/// A ring key pair: a canonical scalar and its public point.
pub struct RingKeyPair {
    pub private_key: [u8; 32],
    pub public_key: [u8; 32],
}

/// An LSAG signature.
pub struct RingSignature {
    /// Public keys of the ring, the signer's among them.
    pub ring: Vec<[u8; 32]>,
    /// Key image: the signer's private key times the hash point of its
    /// public key; equal for every signature of one signer.
    pub key_image: [u8; 32],
    /// First challenge.
    pub c0: [u8; 32],
    /// One response per ring member.
    pub responses: Vec<[u8; 32]>,
}

/// Why a ring signature could not be made.
#[derive(Clone, Copy, Debug, PartialEq, Eq, Structural)]
pub enum RingError {
    RingTooSmall,
    SignerOutOfRange,
    InvalidPrivateKey,
}

/// The text of `e`.
pub open spec fn ring_error_text(e: RingError) -> Seq<char> {
    match e {
        RingError::RingTooSmall => "El anillo necesita al menos 2 miembros"@,
        RingError::SignerOutOfRange => "signer_index fuera de rango"@,
        RingError::InvalidPrivateKey => "Clave privada inválida"@,
    }
}

impl RingError {
    /// Text of the error.
    pub fn message(&self) -> (s: String)
        ensures
            s@ == ring_error_text(*self),
    {
        match self {
            RingError::RingTooSmall => String::from_str("El anillo necesita al menos 2 miembros"),
            RingError::SignerOutOfRange => String::from_str("signer_index fuera de rango"),
            RingError::InvalidPrivateKey => String::from_str("Clave privada inválida"),
        }
    }
}

/// Domain separator of the challenges.
pub const LSAG_DOMAIN: [u8; 10] = [0x72, 0x66, 0x5f, 0x6c, 0x73, 0x61, 0x67, 0x5f, 0x76, 0x31];

/// Hash of `data` to a point: SHA-512, then the uniform-bytes map.
pub open spec fn hash_point(data: Seq<u8>) -> Seq<u8> {
    point_from_uniform(sha512_digest(data))
}

/// Hash of `data` to a scalar: SHA-512, reduced.
pub open spec fn hash_scalar(data: Seq<u8>) -> Seq<u8> {
    scalar_from_wide(sha512_digest(data))
}

/// Encoding of the Ristretto basepoint.
pub const RISTRETTO_BASEPOINT_BYTES: [u8; 32] = [
    0xe2, 0xf2, 0xae, 0x0a, 0x6a, 0xbc, 0x4e, 0x71, 0xa8, 0x84, 0xa9, 0x61, 0xc5, 0x00, 0x51, 0x5f,
    0x58, 0xe3, 0x0b, 0x6a, 0xa5, 0x82, 0xdd, 0x8d, 0xb6, 0xa6, 0x59, 0x45, 0xe0, 0x8d, 0x2d, 0x76,
];

/// The point that a ring entry stands for: itself when it decodes, else
/// the basepoint.
pub open spec fn ring_point(b: Seq<u8>) -> Seq<u8> {
    if point_is_valid(b) { b } else { RISTRETTO_BASEPOINT_BYTES@ }
}

/// The scalar that 32 bytes stand for: themselves when canonical, else
/// their hash.
pub open spec fn as_scalar(b: Seq<u8>) -> Seq<u8> {
    if scalar_is_canonical(b) { b } else { hash_scalar(b) }
}

/// The ring's public keys written one after the other.
pub open spec fn concat_keys(ring: Seq<Seq<u8>>) -> Seq<u8>
    decreases ring.len(),
{
    if ring.len() == 0 {
        Seq::empty()
    } else {
        concat_keys(ring.drop_last()) + ring.last()
    }
}

/// The challenge that follows the commitments `l` and `r`.
pub open spec fn challenge(msg: Seq<u8>, ring: Seq<Seq<u8>>, key_image: Seq<u8>, l: Seq<u8>, r: Seq<u8>) -> Seq<u8> {
    hash_scalar(LSAG_DOMAIN@ + msg + concat_keys(ring) + key_image + l + r)
}

/// The challenge after member `i` answers `resp` to the challenge `c`.
pub open spec fn lsag_next(
    msg: Seq<u8>,
    ring: Seq<Seq<u8>>,
    key_image: Seq<u8>,
    i: int,
    c: Seq<u8>,
    resp: Seq<u8>,
) -> Seq<u8> {
    let cs = as_scalar(c);
    let rs = as_scalar(resp);
    let ki = ring_point(key_image);
    challenge(
        msg,
        ring,
        key_image,
        point_sum(point_base_times(rs), point_times(ring_point(ring[i]), cs)),
        point_sum(point_times(hash_point(ring[i]), rs), point_times(ki, cs)),
    )
}

/// Views of a list of 32-byte strings.
pub open spec fn key_views(v: Seq<[u8; 32]>) -> Seq<Seq<u8>> {
    v.map_values(|k: [u8; 32]| k@)
}

/// The challenge after the first `k` members answer, starting from `c0`.
pub open spec fn lsag_walk(msg: Seq<u8>, sig: RingSignature, k: int) -> Seq<u8>
    decreases k,
{
    if k <= 0 {
        as_scalar(sig.c0@)
    } else {
        as_scalar(
            lsag_next(msg, key_views(sig.ring@), sig.key_image@, k - 1, lsag_walk(msg, sig, k - 1), key_views(sig.responses@)[k - 1]),
        )
    }
}

/// Position `a` places after `s` around a ring of `n`.
pub open spec fn ring_index(s: int, a: int, n: int) -> int {
    if s + a < n { s + a } else { s + a - n }
}

fn copy_wide(v: &Vec<u8>) -> (r: [u8; 64])
    requires
        v@.len() == 64,
    ensures
        r@ == v@,
{
    let mut out = [0u8; 64];
    let mut i: usize = 0;
    while i < 64
        invariant
            v@.len() == 64,
            i <= 64,
            forall|j: int| 0 <= j < i ==> out@[j] == v@[j],
        decreases 64 - i,
    {
        out[i] = v[i];
        i = i + 1;
    }
    assert(out@ =~= v@);
    out
}

fn hash_to_point(data: &[u8]) -> (r: [u8; 32])
    ensures
        r@ == hash_point(data@),
        point_is_valid(r@),
{
    let h = sha512(data);
    point_from_uniform_bytes(&h)
}

fn hash_to_scalar(data: &[u8]) -> (r: [u8; 32])
    ensures
        r@ == hash_scalar(data@),
        scalar_is_canonical(r@),
{
    let h = sha512(data);
    scalar_reduce_wide(&h)
}

fn to_scalar(b: &[u8; 32]) -> (r: [u8; 32])
    ensures
        r@ == as_scalar(b@),
        scalar_is_canonical(r@),
{
    if scalar_canonical(b) { *b } else { hash_to_scalar(b) }
}

fn push_all(out: &mut Vec<u8>, b: &[u8])
    ensures
        final(out)@ == old(out)@ + b@,
{
    let ghost start = out@;
    let mut i: usize = 0;
    while i < b.len()
        invariant
            i <= b.len(),
            out@ == start + b@.subrange(0, i as int),
        decreases b.len() - i,
    {
        out.push(b[i]);
        assert(out@ =~= start + b@.subrange(0, i + 1));
        i = i + 1;
    }
    assert(b@.subrange(0, b.len() as int) =~= b@);
}

fn compute_challenge(message: &[u8], ring: &[[u8; 32]], key_image: &[u8; 32], l: &[u8; 32], r: &[u8; 32]) -> (c: [u8; 32])
    ensures
        c@ == challenge(message@, key_views(ring@), key_image@, l@, r@),
        scalar_is_canonical(c@),
{
    let mut data: Vec<u8> = Vec::new();
    push_all(&mut data, &LSAG_DOMAIN);
    push_all(&mut data, message);
    let ghost head = data@;
    let mut i: usize = 0;
    while i < ring.len()
        invariant
            i <= ring.len(),
            data@ == head + concat_keys(key_views(ring@.subrange(0, i as int))),
        decreases ring.len() - i,
    {
        push_all(&mut data, &ring[i]);
        proof {
            let next = key_views(ring@.subrange(0, i + 1));
            assert(next.drop_last() =~= key_views(ring@.subrange(0, i as int)));
            assert(next.last() == ring@[i as int]@);
        }
        i = i + 1;
    }
    assert(ring@.subrange(0, ring.len() as int) =~= ring@);
    push_all(&mut data, key_image);
    push_all(&mut data, l);
    push_all(&mut data, r);
    assert(data@ =~= LSAG_DOMAIN@ + message@ + concat_keys(key_views(ring@)) + key_image@ + l@ + r@);
    hash_to_scalar(data.as_slice())
}

impl RingKeyPair {
    /// A key pair from 64 random bytes, reduced to a scalar.
    pub fn generate() -> (kp: Self)
        ensures
            scalar_is_canonical(kp.private_key@),
            kp.public_key@ == point_base_times(kp.private_key@),
    {
        let bytes = os_random_bytes(64);
        let wide = copy_wide(&bytes);
        let sk = scalar_reduce_wide(&wide);
        let pk = point_mul_base(&sk);
        RingKeyPair { private_key: sk, public_key: pk }
    }

    /// The key pair whose scalar is the SHA-512 of `seed`, reduced.
    pub fn from_seed(seed: &[u8; 32]) -> (kp: Self)
        ensures
            kp.private_key@ == hash_scalar(seed@),
            kp.public_key@ == point_base_times(kp.private_key@),
    {
        let sk = hash_to_scalar(seed);
        let pk = point_mul_base(&sk);
        RingKeyPair { private_key: sk, public_key: pk }
    }
}

/// Whether `key_image` is among the `used` ones.
pub fn key_image_used(key_image: &[u8; 32], used: &[[u8; 32]]) -> (r: bool)
    ensures
        r == key_views(used@).contains(key_image@),
{
    let mut i: usize = 0;
    while i < used.len()
        invariant
            i <= used.len(),
            forall|j: int| 0 <= j < i ==> key_views(used@)[j] != key_image@,
        decreases used.len() - i,
    {
        if crate::chain::bytes_equal(&used[i], key_image) {
            assert(key_views(used@)[i as int] == key_image@);
            return true;
        }
        i = i + 1;
    }
    false
}

/// Checks an LSAG signature on `message`: the challenges, walked once
/// around the ring from `c0`, come back to `c0`.
pub fn ring_verify(message: &[u8], sig: &RingSignature) -> (ok: bool)
    ensures
        ok == (sig.ring@.len() >= 2 && sig.responses@.len() == sig.ring@.len() && point_is_valid(sig.key_image@)
            && lsag_walk(message@, *sig, sig.ring@.len() as int) == sig.c0@),
{
    let n = sig.ring.len();
    if n < 2 || sig.responses.len() != n {
        return false;
    }
    if !point_valid(&sig.key_image) {
        return false;
    }
    let base = ristretto_basepoint();
    let ki = sig.key_image;
    let mut c = to_scalar(&sig.c0);
    let mut i: usize = 0;
    while i < n
        invariant
            n == sig.ring@.len(),
            n == sig.responses@.len(),
            base@ == RISTRETTO_BASEPOINT_BYTES@,
            point_is_valid(base@),
            point_is_valid(ki@),
            ki == sig.key_image,
            i <= n,
            c@ == lsag_walk(message@, *sig, i as int),
            scalar_is_canonical(c@),
        decreases n - i,
    {
        let r_i = to_scalar(&sig.responses[i]);
        let pk = sig.ring[i];
        let p_i = if point_valid(&pk) { pk } else { base };
        let h_p_i = hash_to_point(&pk);
        let l_i = point_add(&point_mul_base(&r_i), &point_mul(&p_i, &c));
        let r_i_pt = point_add(&point_mul(&h_p_i, &r_i), &point_mul(&ki, &c));
        let c_next = compute_challenge(message, sig.ring.as_slice(), &ki, &l_i, &r_i_pt);
        proof {
            assert(key_views(sig.ring@)[i as int] == pk@);
            assert(key_views(sig.responses@)[i as int] == sig.responses@[i as int]@);
            assert(as_scalar(c@) == c@);
            assert(ring_point(sig.key_image@) == ki@);
        }
        c = to_scalar(&c_next);
        i = i + 1;
    }
    let ok = crate::chain::bytes_equal(&c, &sig.c0);
    ok
}


/// `cs` and `alpha` close the ring for signer `s` with key `sk`: the
/// challenge after the signer comes from the commitments `alpha·G` and
/// `alpha·Hp(pk_s)`, each other member's answer leads to the next
/// challenge, and the signer's response is `alpha - c_s·sk`.
pub open spec fn lsag_chain(
    msg: Seq<u8>,
    ring: Seq<Seq<u8>>,
    key_image: Seq<u8>,
    s: int,
    sk: Seq<u8>,
    alpha: Seq<u8>,
    cs: Seq<Seq<u8>>,
    resp: Seq<Seq<u8>>,
) -> bool {
    let n = ring.len() as int;
    &&& cs.len() == n
    &&& scalar_is_canonical(alpha)
    &&& cs[ring_index(s, 1, n)] == challenge(msg, ring, key_image, point_base_times(alpha), point_times(hash_point(ring[s]), alpha))
    &&& forall|a: int| 1 <= a < n ==> #[trigger] cs[ring_index(s, a + 1, n)] == lsag_next(
        msg,
        ring,
        key_image,
        ring_index(s, a, n),
        cs[ring_index(s, a, n)],
        resp[ring_index(s, a, n)],
    )
    &&& resp[s] == scalar_difference(alpha, scalar_product(as_scalar(cs[s]), sk))
}

/// `sig` is an LSAG signature on `msg` by member `s` of its ring, with
/// private key `sk`.
pub open spec fn lsag_signed(msg: Seq<u8>, sig: RingSignature, s: int, sk: Seq<u8>) -> bool {
    let ring = key_views(sig.ring@);
    let resp = key_views(sig.responses@);
    &&& 0 <= s < ring.len()
    &&& sig.key_image@ == point_times(hash_point(ring[s]), sk)
    &&& resp.len() == ring.len()
    &&& exists|alpha: Seq<u8>, cs: Seq<Seq<u8>>| #[trigger] lsag_chain(msg, ring, sig.key_image@, s, sk, alpha, cs, resp) && sig.c0@ == cs[0]
}

fn random_scalar() -> (r: [u8; 32])
    ensures
        scalar_is_canonical(r@),
{
    let bytes = os_random_bytes(64);
    let wide = copy_wide(&bytes);
    scalar_reduce_wide(&wide)
}

/// Signs `message` as member `signer_index` of the ring `ring_pubkeys`,
/// whose private key is `signer_private`.
pub fn ring_sign(message: &[u8], ring_pubkeys: &[[u8; 32]], signer_index: usize, signer_private: &[u8; 32]) -> (r: Result<RingSignature, RingError>)
    ensures
        ring_pubkeys@.len() < 2 ==> r == Err::<RingSignature, RingError>(RingError::RingTooSmall),
        ring_pubkeys@.len() >= 2 && signer_index >= ring_pubkeys@.len()
            ==> r == Err::<RingSignature, RingError>(RingError::SignerOutOfRange),
        ring_pubkeys@.len() >= 2 && signer_index < ring_pubkeys@.len() && !scalar_is_canonical(signer_private@)
            ==> r == Err::<RingSignature, RingError>(RingError::InvalidPrivateKey),
        ring_pubkeys@.len() >= 2 && signer_index < ring_pubkeys@.len() && scalar_is_canonical(signer_private@) ==> r is Ok,
        r matches Ok(sig) ==> sig.ring@ == ring_pubkeys@ && lsag_signed(message@, sig, signer_index as int, signer_private@),
{
    let n = ring_pubkeys.len();
    if n < 2 {
        return Err(RingError::RingTooSmall);
    }
    if signer_index >= n {
        return Err(RingError::SignerOutOfRange);
    }
    if !scalar_canonical(signer_private) {
        return Err(RingError::InvalidPrivateKey);
    }
    let sk = *signer_private;
    let s = signer_index;
    let ghost ring = key_views(ring_pubkeys@);
    let pk_s = ring_pubkeys[s];
    let h_p = hash_to_point(&pk_s);
    let key_image = point_mul(&h_p, &sk);
    let base = ristretto_basepoint();
    let alpha = random_scalar();
    let mut c: Vec<[u8; 32]> = Vec::new();
    let mut r: Vec<[u8; 32]> = Vec::new();
    let mut z: usize = 0;
    while z < n
        invariant
            z <= n,
            c@.len() == z,
            r@.len() == z,
        decreases n - z,
    {
        c.push([0u8; 32]);
        r.push([0u8; 32]);
        z = z + 1;
    }
    let l_s = point_mul_base(&alpha);
    let r_s = point_mul(&h_p, &alpha);
    let c_first = compute_challenge(message, ring_pubkeys, &key_image, &l_s, &r_s);
    let first = if s + 1 < n { s + 1 } else { 0 };
    c.set(first, c_first);
    let ki = key_image;
    assert(ring[s as int] == pk_s@);
    let mut step: usize = 1;
    while step < n
        invariant
            n == ring_pubkeys@.len(),
            ring == key_views(ring_pubkeys@),
            n >= 2,
            s < n,
            1 <= step <= n,
            c@.len() == n,
            r@.len() == n,
            base@ == RISTRETTO_BASEPOINT_BYTES@,
            point_is_valid(base@),
            point_is_valid(ki@),
            ki == key_image,
            first == ring_index(s as int, 1, n as int),
            key_views(c@)[first as int] == challenge(message@, ring, key_image@, point_base_times(alpha@), point_times(hash_point(ring[s as int]), alpha@)),
            forall|a: int| 1 <= a < step ==> #[trigger] key_views(c@)[ring_index(s as int, a + 1, n as int)] == lsag_next(
                message@,
                ring,
                key_image@,
                ring_index(s as int, a, n as int),
                key_views(c@)[ring_index(s as int, a, n as int)],
                key_views(r@)[ring_index(s as int, a, n as int)],
            ),
        decreases n - step,
    {
        let i = if step < n - s { s + step } else { step - (n - s) };
        let next_i = if step + 1 < n - s { s + step + 1 } else { step + 1 - (n - s) };
        assert(i as int == ring_index(s as int, step as int, n as int));
        assert(next_i as int == ring_index(s as int, step + 1, n as int));
        let r_i = random_scalar();
        let ghost c_before = c@;
        let ghost r_before = r@;
        r.set(i, r_i);
        let c_i = to_scalar(&c[i]);
        let pk = ring_pubkeys[i];
        let p_i = if point_valid(&pk) { pk } else { base };
        let h_p_i = hash_to_point(&pk);
        let l_i = point_add(&point_mul_base(&r_i), &point_mul(&p_i, &c_i));
        let r_i_pt = point_add(&point_mul(&h_p_i, &r_i), &point_mul(&ki, &c_i));
        let c_next = compute_challenge(message, ring_pubkeys, &key_image, &l_i, &r_i_pt);
        c.set(next_i, c_next);
        proof {
            assert(ring[i as int] == pk@);
            assert(as_scalar(r_i@) == r_i@);
            assert(ring_point(key_image@) == ki@);
            assert(key_views(r@)[i as int] == r_i@);
            assert(key_views(c@)[i as int] == c_before[i as int]@);
            assert forall|a: int| 1 <= a < step + 1 implies #[trigger] key_views(c@)[ring_index(s as int, a + 1, n as int)] == lsag_next(
                message@,
                ring,
                key_image@,
                ring_index(s as int, a, n as int),
                key_views(c@)[ring_index(s as int, a, n as int)],
                key_views(r@)[ring_index(s as int, a, n as int)],
            ) by {
                if a < step {
                    assert(key_views(c@)[ring_index(s as int, a + 1, n as int)] == key_views(c_before)[ring_index(s as int, a + 1, n as int)]);
                    assert(key_views(c@)[ring_index(s as int, a, n as int)] == key_views(c_before)[ring_index(s as int, a, n as int)]);
                    assert(key_views(r@)[ring_index(s as int, a, n as int)] == key_views(r_before)[ring_index(s as int, a, n as int)]);
                }
            }
        }
        step = step + 1;
    }
    let c_s = to_scalar(&c[s]);
    let prod = scalar_mul(&c_s, &sk);
    let resp_s = scalar_sub(&alpha, &prod);
    let ghost c_final = c@;
    let ghost r_before = r@;
    r.set(s, resp_s);
    let mut ring_copy: Vec<[u8; 32]> = Vec::new();
    let mut q: usize = 0;
    while q < n
        invariant
            n == ring_pubkeys@.len(),
            q <= n,
            ring_copy@ == ring_pubkeys@.subrange(0, q as int),
        decreases n - q,
    {
        ring_copy.push(ring_pubkeys[q]);
        assert(ring_copy@ =~= ring_pubkeys@.subrange(0, q + 1));
        q = q + 1;
    }
    assert(ring_pubkeys@.subrange(0, n as int) =~= ring_pubkeys@);
    let sig = RingSignature { ring: ring_copy, key_image, c0: c[0], responses: r };
    proof {
        let cs = key_views(c@);
        let resp = key_views(r@);
        assert(sig.ring@ == ring_pubkeys@);
        assert(key_views(sig.ring@) == ring);
        assert forall|a: int| 1 <= a < n implies #[trigger] cs[ring_index(s as int, a + 1, n as int)] == lsag_next(
            message@,
            ring,
            key_image@,
            ring_index(s as int, a, n as int),
            cs[ring_index(s as int, a, n as int)],
            resp[ring_index(s as int, a, n as int)],
        ) by {
            assert(resp[ring_index(s as int, a, n as int)] == key_views(r_before)[ring_index(s as int, a, n as int)]);
        }
        assert(resp[s as int] == resp_s@);
        assert(lsag_chain(message@, ring, key_image@, s as int, sk@, alpha@, cs, resp));
        assert(sig.c0@ == cs[0]);
        assert(key_views(sig.responses@) == resp);
        assert(sig.key_image@ == point_times(hash_point(ring[s as int]), sk@));
        assert(lsag_signed(message@, sig, s as int, sk@));
    }
    Ok(sig)
}


/// Linkability: two signatures made with the same private key for the
/// same public key carry the same key image, whatever they sign.
pub proof fn lemma_key_image_linkable(
    msg1: Seq<u8>,
    sig1: RingSignature,
    s1: int,
    msg2: Seq<u8>,
    sig2: RingSignature,
    s2: int,
    sk: Seq<u8>,
)
    requires
        lsag_signed(msg1, sig1, s1, sk),
        lsag_signed(msg2, sig2, s2, sk),
        key_views(sig1.ring@)[s1] == key_views(sig2.ring@)[s2],
    ensures
        sig1.key_image@ == sig2.key_image@,
{
}

} // verus!
