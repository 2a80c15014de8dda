use redflag::chain::{EncryptedTransaction, PrivateTxPayload, CHAIN_ID, MIN_FEE};
use redflag::threshold::{encrypt_payload, xor_cipher, ThresholdMempool};
use redflag::codec::{decode_payload, encode_payload};

#[test]
fn test_threshold_encrypt_decrypt() {
    let tm = ThresholdMempool::new().expect("init");
    let (round, ek) = tm.get_current_ek();

    let payload = PrivateTxPayload {
        receiver: "alice_hex_pubkey".to_string(),
        amount: 1000,
        data: vec![],
        salt: [7u8; 32],
    };

    let (kem_ct, enc, commitment) = encrypt_payload(&ek, &payload, round).expect("encrypt");

    let etx = EncryptedTransaction {
        sender: "bob_hex_pubkey".to_string(),
        nonce: 0,
        chain_id: CHAIN_ID,
        fee: MIN_FEE,
        round,
        payload_commitment: commitment,
        kem_ciphertext: kem_ct,
        encrypted_payload: enc,
        signature: vec![],
    };

    let decrypted = tm.decrypt_payload(&etx).expect("decrypt");
    assert_eq!(decrypted.receiver, payload.receiver);
    assert_eq!(decrypted.amount, 1000);
}

#[test]
fn test_key_rotation_seals_old_round() {
    let mut tm = ThresholdMempool::new().expect("init");
    let (old_round, old_ek) = tm.get_current_ek();

    let payload = PrivateTxPayload {
        receiver: "carol".to_string(),
        amount: 50,
        data: vec![],
        salt: [2u8; 32],
    };
    let (kem_ct, enc, commitment) = encrypt_payload(&old_ek, &payload, old_round).expect("encrypt");

    tm.rotate_keys(old_round + 1).expect("rotate");

    let etx = EncryptedTransaction {
        sender: "dave".to_string(),
        nonce: 0,
        chain_id: CHAIN_ID,
        fee: MIN_FEE,
        round: old_round,
        payload_commitment: commitment,
        kem_ciphertext: kem_ct,
        encrypted_payload: enc,
        signature: vec![],
    };

    assert!(tm.decrypt_payload(&etx).is_err(), "TX de ronda pasada debe ser rechazada");

    let revealed = tm.revealed_key_for_round(old_round);
    assert!(revealed.is_some(), "Llave de ronda anterior debe estar en historial");
}

#[test]
fn test_multiple_rotations() {
    let mut tm = ThresholdMempool::new().expect("init");

    for i in 1..=5 {
        tm.rotate_keys(i).expect("rotate");
    }

    let (current_round, ek) = tm.get_current_ek();
    assert_eq!(current_round, 5);
    assert!(!ek.is_empty());

    for i in 1..=4 {
        assert!(tm.revealed_key_for_round(i).is_some(), "Ronda {} debe estar revelada", i);
    }
    assert!(tm.revealed_key_for_round(5).is_none(), "Ronda activa no debe estar revelada");
}

#[test]
fn revealed_key_opens_a_sealed_round() {
    let mut tm = ThresholdMempool::new().expect("init");
    let (round, ek) = tm.get_current_ek();
    let payload = PrivateTxPayload { receiver: "erin".to_string(), amount: 9, data: vec![1, 2], salt: [5u8; 32] };
    let (kem_ct, enc, commitment) = encrypt_payload(&ek, &payload, round).expect("encrypt");
    tm.rotate_keys(round + 1).expect("rotate");
    let etx = EncryptedTransaction {
        sender: "frank".to_string(), nonce: 0, chain_id: CHAIN_ID, fee: MIN_FEE, round,
        payload_commitment: commitment, kem_ciphertext: kem_ct, encrypted_payload: enc, signature: vec![],
    };
    let key = tm.revealed_key_for_round(round).unwrap();
    assert_eq!(key.ek_bytes, ek);
    assert_eq!(key.round, round);
    let tx = tm.finalize_transaction(&etx);
    assert!(tx.is_err());
}

#[test]
fn xor_cipher_is_its_own_inverse() {
    let data = b"redflag payload".to_vec();
    let key = [0x5au8, 0x11, 0xf0];
    let once = xor_cipher(&data, &key);
    assert_eq!(once[0], b'r' ^ 0x5a);
    assert_eq!(once[3], b'f' ^ 0x5a);
    assert_eq!(xor_cipher(&once, &key), data);
}

#[test]
fn payload_encoding_roundtrip() {
    let payload = PrivateTxPayload { receiver: "zoë".to_string(), amount: 300, data: vec![0, 255], salt: [1u8; 32] };
    let bytes = encode_payload(&payload);
    // receiver: its byte length 4 in eight little-endian bytes, then "zoë"; then the amount
    assert_eq!(&bytes[..12], &[4, 0, 0, 0, 0, 0, 0, 0, b'z', b'o', 0xc3, 0xab]);
    assert_eq!(&bytes[12..20], &300u64.to_le_bytes());
    assert_eq!(bytes.len(), 12 + 8 + 8 + 2 + 32);
    let back = decode_payload(&bytes).unwrap();
    assert_eq!(back.receiver, "zoë");
    assert_eq!(back.amount, 300);
    assert_eq!(back.data, vec![0, 255]);
    assert_eq!(back.salt, [1u8; 32]);
    assert!(decode_payload(&bytes[..3]).is_none());
}
