use redflag::chain::{EncryptedTransaction, Transaction, CHAIN_ID, MIN_FEE};
use redflag::consensus::{ConsensusEngine, Dag, Mempool};
use redflag::node::{submit_encrypted_transaction, submit_transaction, wallet_new, wallet_send};
use redflag::crypto::SigningKeyPair;
use redflag::ledger::{Account, StateDB};
use redflag::node::{
    bridge_mint, dex_add_liquidity_request, dex_quote, dex_remove_liquidity_request, dex_swap_request,
    ip_rate_limit, pool_token_of, protocol_prefixed, secrets_match, signer_from_hex, supported_token,
    wallet_faucet, DexRequestError, FaucetRefusal, KeyRefusal, MintRefusal,
};
use redflag::threshold::ThresholdMempool;

/// A fresh key written as the node expects it, and its address.
fn key_hex() -> (String, String) {
    let kp = SigningKeyPair::generate().unwrap();
    let framed = postcard::to_allocvec(&kp.to_pkcs8()).unwrap();
    (hex::encode(framed), hex::encode(kp.public_key()))
}

fn engine() -> ConsensusEngine {
    let kp = SigningKeyPair::generate().unwrap();
    ConsensusEngine::new(Dag::new(), Mempool::new(kp), StateDB::new(), ThresholdMempool::new().unwrap(), vec![], 0, &[])
}

#[test]
fn rate_limit_window() {
    assert_eq!(ip_rate_limit(None, 100), ((1, 100), false));
    assert_eq!(ip_rate_limit(Some((5, 100)), 150), ((6, 100), false));
    assert_eq!(ip_rate_limit(Some((60, 100)), 120), ((61, 100), true));
    assert_eq!(ip_rate_limit(Some((60, 100)), 161), ((1, 161), false));
}

#[test]
fn text_helpers() {
    assert!(secrets_match("s3cret", "s3cret"));
    assert!(!secrets_match("s3cret", "s3creT"));
    assert!(!secrets_match("s3cret", "s3cre"));
    assert_eq!(pool_token_of("RF_wETH"), "wETH");
    assert_eq!(pool_token_of("RF_RF_wBNB"), "wBNB");
    assert_eq!(pool_token_of("wMATIC"), "wMATIC");
    assert!(protocol_prefixed("RedFlag_Genesis_Alpha"));
    assert!(!protocol_prefixed("RedFla"));
    assert!(supported_token("wUSDT"));
    assert!(!supported_token("RF"));
}

#[test]
fn signer_from_hex_refusals() {
    assert!(matches!(signer_from_hex("zz"), Err(KeyRefusal::BadHex)));
    assert!(matches!(signer_from_hex("0102"), Err(KeyRefusal::BadKey)));
    let (pk_hex, addr) = key_hex();
    let kp = signer_from_hex(&pk_hex).unwrap();
    assert_eq!(hex::encode(kp.public_key()), addr);
}

#[test]
fn bridge_mint_checks_in_order() {
    let mut state = StateDB::new();
    assert_eq!(bridge_mint(&mut state, None, "x", "bob", "RF", 5), Err(MintRefusal::NotConfigured));
    assert_eq!(bridge_mint(&mut state, Some(""), "", "bob", "RF", 5), Err(MintRefusal::NotConfigured));
    assert_eq!(bridge_mint(&mut state, Some("bridge_dev_secret"), "bridge_dev_secret", "bob", "RF", 5), Err(MintRefusal::NotConfigured));
    assert_eq!(bridge_mint(&mut state, Some("k"), "j", "bob", "RF", 5), Err(MintRefusal::Unauthorized));
    assert_eq!(bridge_mint(&mut state, Some("k"), "k", "bob", "RF", 1_000_000_000_001), Err(MintRefusal::AmountTooLarge));
    assert_eq!(bridge_mint(&mut state, Some("k"), "k", "RedFlag_x", "RF", 5), Err(MintRefusal::InvalidDestination));
    assert_eq!(bridge_mint(&mut state, Some("k"), "k", "bob", "DOGE", 5), Err(MintRefusal::UnsupportedToken));
    assert_eq!(state.get_balance("bob"), 0);

    assert_eq!(bridge_mint(&mut state, Some("k"), "k", "bob", "RF", 5), Ok(None));
    assert_eq!(bridge_mint(&mut state, Some("k"), "k", "bob", "RF", 7), Ok(None));
    assert_eq!(state.get_balance("bob"), 12);
    assert_eq!(bridge_mint(&mut state, Some("k"), "k", "bob", "wETH", 9), Ok(Some(9)));
    assert_eq!(bridge_mint(&mut state, Some("k"), "k", "bob", "wETH", 0), Err(MintRefusal::Token(redflag::tokens::TokenError::ZeroAmount)));
    assert_eq!(state.token_balance("bob", "wETH"), 9);
}

#[test]
fn exchange_requests_move_funds() {
    let mut state = StateDB::new();
    let (pk_hex, addr) = key_hex();
    state.save_account_pub(&Account { address: addr.clone(), balance: 2_000_000, nonce: 0 });
    state.token_credit(&addr, "wETH", 1_000_000).unwrap();

    let lp = dex_add_liquidity_request(&mut state, &pk_hex, "RF_wETH", 1_000_000, 500_000, 5).unwrap();
    assert_eq!(lp, 707_106);
    assert_eq!(state.get_balance(&addr), 1_000_000);
    assert_eq!(state.token_balance(&addr, "wETH"), 500_000);

    assert_eq!(dex_quote(&state, "RF_wETH", "rf_to_b", 10_000), Some((4_935, 30)));
    assert_eq!(dex_quote(&state, "RF_nope", "rf_to_b", 10_000), None);

    let rc = dex_swap_request(&mut state, &pk_hex, "RF_wETH", "rf_to_b", 10_000, None, 7).unwrap();
    assert_eq!((rc.amount_in, rc.amount_out), (10_000, 4_935));
    assert_eq!(rc.tx_hash, format!("dex_7_{}", &addr[..8]));
    assert_eq!(state.get_balance(&addr), 990_000);
    assert_eq!(state.token_balance(&addr, "wETH"), 504_935);

    let (rf, b) = dex_remove_liquidity_request(&mut state, &pk_hex, "RF_wETH", 707_106, 9).unwrap();
    assert_eq!((rf, b), (1_010_000, 495_065));
    assert_eq!(state.get_balance(&addr), 2_000_000);
    assert_eq!(state.token_balance(&addr, "wETH"), 1_000_000);
}

#[test]
fn exchange_request_refusals() {
    let mut state = StateDB::new();
    let (pk_hex, addr) = key_hex();
    assert!(matches!(dex_swap_request(&mut state, "zz", "RF_wETH", "rf_to_b", 1, None, 1), Err(DexRequestError::InvalidKeyHex)));
    assert!(matches!(dex_add_liquidity_request(&mut state, "zz", "RF_wETH", 1, 1, 1), Err(DexRequestError::InvalidKey)));
    assert!(matches!(dex_swap_request(&mut state, &pk_hex, "RF_wETH", "rf_to_b", 1, None, 1),
        Err(DexRequestError::InsufficientRf { balance: 0 })));
    match dex_swap_request(&mut state, &pk_hex, "RF_wETH", "b_to_rf", 1, None, 1) {
        Err(DexRequestError::InsufficientToken { token, balance }) => {
            assert_eq!(token, "wETH");
            assert_eq!(balance, 0);
        },
        _ => panic!("expected a refusal for the missing token"),
    }
    state.save_account_pub(&Account { address: addr.clone(), balance: 50, nonce: 0 });
    // empty pool: the RF is taken and the exchange refuses
    let r = dex_swap_request(&mut state, &pk_hex, "RF_wETH", "rf_to_b", 40, None, 1);
    assert!(matches!(r, Err(DexRequestError::Dex(redflag::dex::DexError::EmptyPool))));
    assert_eq!(state.get_balance(&addr), 10);
    assert_eq!(DexRequestError::InsufficientRf { balance: 3 }.message(), "Saldo RF insuficiente: tienes 3 RF");
}

#[test]
fn faucet_pays_once_per_day() {
    let mut engine = engine();
    let faucet_kp = SigningKeyPair::generate().unwrap();
    let faucet_addr = hex::encode(faucet_kp.public_key());
    engine.state.ensure_faucet(&faucet_addr, 10_000);
    let (_, user) = key_hex();

    let (amount, resp) = wallet_faucet(&mut engine, &faucet_kp, &faucet_addr, None, &user, Some(5_000), 1_000).unwrap();
    assert_eq!(amount, 1_000);
    assert!(resp.accepted);
    assert_eq!(resp.tx_hash.as_ref().map(|h| h.len()), Some(64));
    assert_eq!(engine.mempool.pending_count(), 1);

    match wallet_faucet(&mut engine, &faucet_kp, &faucet_addr, Some(990), &user, None, 1_000) {
        Err(e) => {
            assert!(matches!(e, FaucetRefusal::Cooldown { wait_mins: 1439 }));
            assert_eq!(e.message(), "Faucet: espera 23 horas 59 min antes de volver a pedir.");
        },
        Ok(_) => panic!("cooldown not enforced"),
    }
    assert!(matches!(wallet_faucet(&mut engine, &faucet_kp, &faucet_addr, None, "abc", None, 1_000), Err(FaucetRefusal::InvalidAddress)));
    assert!(matches!(wallet_faucet(&mut engine, &faucet_kp, "nobody", None, &user, None, 1_000), Err(FaucetRefusal::FaucetEmpty)));
    assert_eq!(engine.mempool.pending_count(), 1);
}

#[test]
fn wallets_send_and_clients_submit() {
    let mut e = engine();
    let w = wallet_new().unwrap();
    let kp = signer_from_hex(&w.private_key_hex).unwrap();
    assert_eq!(hex::encode(kp.public_key()), w.address);

    let bob = "b0".repeat(32);
    let not_hex = wallet_send(&mut e, &w.private_key_hex, "bob".to_string(), 5, Some(0));
    assert!(!not_hex.accepted);
    assert_eq!(not_hex.message, "Dirección RF inválida (debe ser clave pública ML-DSA hex)");
    let short = wallet_send(&mut e, &w.private_key_hex, "b0".repeat(31), 5, Some(0));
    assert!(!short.accepted);
    assert_eq!(e.mempool.pending_count(), 0);
    let resp = wallet_send(&mut e, &w.private_key_hex, bob.clone(), 5, Some(0));
    assert!(resp.accepted);
    assert_eq!(e.mempool.pending_count(), 1);
    let refused = wallet_send(&mut e, &w.private_key_hex, bob.clone(), 0, None);
    assert!(!refused.accepted);
    assert_eq!(refused.message, "amount > 0 requerido");
    assert_eq!(wallet_send(&mut e, "zz", bob.clone(), 5, None).message, "private_key_hex inválido");

    let mut tx = Transaction::new_transfer(w.address.clone(), "carol".into(), 3, MIN_FEE, 0);
    let mut unsigned = tx.clone();
    unsigned.signature = vec![];
    let msg = redflag::codec::encode_transaction(&unsigned, redflag::codec::IntCoding::Leb128);
    tx.signature = kp.sign(&msg).unwrap();
    let ok = submit_transaction(&mut e, tx.clone());
    assert!(ok.accepted);
    assert_eq!(ok.tx_hash, Some(hex::encode(blake3::hash(&msg).as_bytes())));
    assert_eq!(e.mempool.pending_count(), 2);
    let mut forged = tx.clone();
    forged.amount = 4;
    assert_eq!(submit_transaction(&mut e, forged).message, "Firma inválida");
    let mut wrong = tx;
    wrong.chain_id = 7;
    assert_eq!(submit_transaction(&mut e, wrong).message, "Chain ID o Fee inválido");

    let etx = EncryptedTransaction {
        sender: "s".into(), nonce: 0, chain_id: CHAIN_ID, fee: MIN_FEE, round: 0,
        payload_commitment: [0u8; 32], kem_ciphertext: vec![], encrypted_payload: vec![], signature: vec![],
    };
    assert!(submit_encrypted_transaction(&mut e, etx).accepted);
    assert_eq!(e.mempool.pending_encrypted_count(), 1);
}

#[test]
fn rate_limit_over_a_run_of_requests() {
    let mut entry = None;
    let mut answers = Vec::new();
    for i in 0..70u64 {
        let (w, over) = ip_rate_limit(entry, 1_000 + i % 60);
        entry = Some(w);
        answers.push(over);
    }
    assert!(answers[..60].iter().all(|o| !o));
    assert!(answers[60..].iter().all(|o| *o));
    // the first request more than a window after the start opens a new one
    assert_eq!(ip_rate_limit(entry, 1_061), ((1, 1_061), false));
}
