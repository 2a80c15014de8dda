use redflag::crypto::{combine_secrets, HybridKeyExchange, SigningKeyPair, Verifier};
use redflag::ring::{key_image_used, ring_sign, ring_verify, RingKeyPair};
use redflag::shamir::{gf_div, gf_mul, gf_pow, gf256_lagrange, gf256_poly_eval, reconstruct_secret, split_secret, SecretShare, ShamirError};

#[test]
fn test_signing_flow() {
    let keypair = SigningKeyPair::generate().expect("Failed to generate ML-DSA keypair");
    let message = b"Mensaje ultra secreto de RedFlag 2.1";
    let signature = keypair.sign(message).expect("Failed to sign message");

    let pubkey = keypair.public_key();
    assert!(Verifier::verify(&pubkey, message, &signature).is_ok());
}

#[test]
fn test_hybrid_flow() {
    let alice_x25519_priv = HybridKeyExchange::generate_x25519_keypair().unwrap();
    let alice_x25519_pub = alice_x25519_priv.compute_public_key().unwrap().as_ref().to_vec();

    let (alice_kem_ek, alice_kem_dk) = HybridKeyExchange::generate_kem_keypair().unwrap();
    let alice_kem_pub = alice_kem_ek.clone();

    let bob_x25519_priv = HybridKeyExchange::generate_x25519_keypair().unwrap();
    let bob_x25519_pub = bob_x25519_priv.compute_public_key().unwrap().as_ref().to_vec();

    let bob_classic_secret = HybridKeyExchange::agree_x25519(bob_x25519_priv, &alice_x25519_pub).unwrap();
    let (kem_ciphertext, bob_quantum_secret) = HybridKeyExchange::encapsulate_kem(&alice_kem_pub).unwrap();
    let bob_hybrid_secret = combine_secrets(&bob_classic_secret, &bob_quantum_secret);

    let alice_classic_secret = HybridKeyExchange::agree_x25519(alice_x25519_priv, &bob_x25519_pub).unwrap();
    let alice_quantum_secret = HybridKeyExchange::decapsulate_kem(&alice_kem_dk, &kem_ciphertext).unwrap();
    let alice_hybrid_secret = combine_secrets(&alice_classic_secret, &alice_quantum_secret);

    assert_eq!(alice_hybrid_secret.shared_key, bob_hybrid_secret.shared_key);
    assert_eq!(alice_hybrid_secret.shared_key.len(), 32);
}

#[test]
fn test_ring_sign_verify() {
    let pairs: Vec<RingKeyPair> = (0..5).map(|_| RingKeyPair::generate()).collect();
    let ring: Vec<[u8; 32]> = pairs.iter().map(|p| p.public_key).collect();

    let sig = ring_sign(b"tx_hash_redflag", &ring, 2, &pairs[2].private_key).unwrap();

    assert!(ring_verify(b"tx_hash_redflag", &sig), "La verificación debe pasar");
    assert!(!ring_verify(b"otro_mensaje", &sig), "Mensaje distinto debe fallar");
}

#[test]
fn test_key_image_linkability() {
    let pairs: Vec<RingKeyPair> = (0..3).map(|_| RingKeyPair::generate()).collect();
    let ring: Vec<[u8; 32]> = pairs.iter().map(|p| p.public_key).collect();

    let sig1 = ring_sign(b"tx1", &ring, 0, &pairs[0].private_key).unwrap();
    let sig2 = ring_sign(b"tx2", &ring, 0, &pairs[0].private_key).unwrap();

    assert_eq!(sig1.key_image, sig2.key_image);
}

#[test]
fn ring_refuses_bad_index_and_small_ring() {
    let pairs: Vec<RingKeyPair> = (0..2).map(|_| RingKeyPair::generate()).collect();
    let ring: Vec<[u8; 32]> = pairs.iter().map(|p| p.public_key).collect();
    assert!(ring_sign(b"m", &ring, 5, &pairs[0].private_key).is_err());
    assert!(ring_sign(b"m", &ring[..1], 0, &pairs[0].private_key).is_err());
    let sig = ring_sign(b"m", &ring, 1, &pairs[1].private_key).unwrap();
    assert!(key_image_used(&sig.key_image, &[[0u8; 32], sig.key_image]));
    assert!(!key_image_used(&sig.key_image, &[[0u8; 32]]));
}

#[test]
fn ring_key_from_seed_is_deterministic() {
    let a = RingKeyPair::from_seed(&[9u8; 32]);
    let b = RingKeyPair::from_seed(&[9u8; 32]);
    assert_eq!(a.public_key, b.public_key);
    assert_eq!(a.private_key, b.private_key);
}

#[test]
fn test_shamir_roundtrip() {
    let secret = b"redflag_dk_secret_32bytes_123456";
    let shares = split_secret(secret, 3, 5).unwrap();
    assert_eq!(shares.len(), 5);

    let subset = vec![shares[0].clone(), shares[2].clone(), shares[4].clone()];
    let recovered = reconstruct_secret(&subset).unwrap();
    assert_eq!(recovered.as_slice(), &secret[..]);
}

#[test]
fn test_shamir_insufficient_shares() {
    let secret = b"otro_secreto_de_prueba__________";
    let shares = split_secret(secret, 3, 5).unwrap();

    let subset = vec![shares[0].clone(), shares[1].clone()];
    let recovered = reconstruct_secret(&subset).unwrap();
    assert_ne!(recovered.as_slice(), &secret[..], "Con t-1 shares no debe recuperarse");
}

#[test]
fn shamir_any_threshold_subset_in_any_order() {
    let secret = b"any four of seven";
    let shares = split_secret(secret, 4, 7).unwrap();
    let reversed = vec![shares[6].clone(), shares[3].clone(), shares[1].clone(), shares[0].clone()];
    assert_eq!(reconstruct_secret(&reversed).unwrap().as_slice(), &secret[..]);
    assert_eq!(reconstruct_secret(&shares).unwrap().as_slice(), &secret[..]);
    let mut five = shares[2..7].to_vec();
    five.swap(0, 4);
    assert_eq!(reconstruct_secret(&five).unwrap().as_slice(), &secret[..]);
}

#[test]
fn shamir_refusals() {
    assert_eq!(split_secret(b"s", 1, 5).err(), Some(ShamirError::ThresholdTooSmall));
    assert_eq!(split_secret(b"s", 4, 3).err(), Some(ShamirError::TotalBelowThreshold));
    assert!(reconstruct_secret(&[]).is_err());
}

#[test]
fn gf256_arithmetic_values() {
    // reduction by x^8 + x^4 + x^3 + x^2 + 1
    assert_eq!(gf_mul(2, 0x80), 0x1d);
    assert_eq!(gf_mul(0, 0x53), 0);
    assert_eq!(gf_mul(7, 1), 7);
    assert_eq!(gf_pow(2, 8), 0x1d);
    assert_eq!(gf_pow(5, 0), 1);
    assert_eq!(gf_mul(gf_div(0x53, 0xca), 0xca), 0x53);
    // p(x) = 3 + 2x at x = 1 is 3 ^ 2 = 1
    assert_eq!(gf256_poly_eval(&[3, 2], 1), 1);
    // the line through (1, 1) and (2, 3 ^ 4) is 3 + 2x: value 3 at 0
    assert_eq!(gf256_lagrange(&[1, 2], &[1, 3 ^ 4]), 3);
}

#[test]
fn gf256_poly_eval_at_zero_is_constant_term() {
    // p(x) = 5 + x: p(0) = 5, p(1) = 4, p(2) = 7
    assert_eq!(gf256_poly_eval(&[5, 1], 0), 5);
    assert_eq!(gf256_poly_eval(&[5, 1], 1), 4);
    assert_eq!(gf256_poly_eval(&[5, 1], 2), 7);
    assert_eq!(gf256_poly_eval(&[9, 4, 7], 0), 9);
    assert_eq!(gf_pow(0, 3), 0);
    assert_eq!(gf_pow(0, 0), 1);
}

#[test]
fn reconstruct_small_line_and_single_share() {
    let line = [
        SecretShare { index: 1, value: vec![4] },
        SecretShare { index: 2, value: vec![7] },
    ];
    assert_eq!(reconstruct_secret(&line), Ok(vec![5]));
    let single = [SecretShare { index: 9, value: vec![42, 7] }];
    assert_eq!(reconstruct_secret(&single), Ok(vec![42, 7]));
}
