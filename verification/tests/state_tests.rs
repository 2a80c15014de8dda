use redflag::chain::{Transaction, CHAIN_ID, FEE_POOL_ADDRESS, GENESIS_ADDRESS, MIN_FEE, MIN_STAKE, STAKE_ADDRESS};
use redflag::crypto::SigningKeyPair;
use redflag::ledger::{ContractAction, StateDB, TxError, DEPLOY_RECEIVER};

fn make_state() -> StateDB {
    StateDB::new()
}

fn gen_account() -> (String, SigningKeyPair) {
    let kp = SigningKeyPair::generate().unwrap();
    let pubkey_hex = hex::encode(kp.public_key());
    (pubkey_hex, kp)
}

fn signed_tx(keypair: &SigningKeyPair, sender_hex: &str, receiver_hex: &str, amount: u64, fee: u64, nonce: u64) -> Transaction {
    let mut tx = Transaction {
        sender: sender_hex.to_string(),
        receiver: receiver_hex.to_string(),
        amount,
        fee,
        nonce,
        chain_id: CHAIN_ID,
        read_set: vec![sender_hex.to_string(), receiver_hex.to_string()],
        write_set: vec![sender_hex.to_string(), receiver_hex.to_string()],
        data: vec![],
        signature: vec![],
        timestamp: 0,
    };
    let msg = tx.signing_message();
    tx.signature = keypair.sign(&msg).unwrap();
    tx
}

#[test]
fn test_valid_signature_accepted() {
    let mut state = make_state();
    let (alice_hex, alice_kp) = gen_account();
    let fund = Transaction::genesis(alice_hex.clone(), 1_000_000);
    assert!(state.apply_transactions(&[fund]).iter().all(|r| r.is_ok()));

    let (bob_hex, _) = gen_account();
    let tx = signed_tx(&alice_kp, &alice_hex, &bob_hex, 100, MIN_FEE, 0);
    assert!(state.apply_transactions(&[tx]).iter().all(|r| r.is_ok()));
    assert_eq!(state.get_balance(&bob_hex), 100);
}

#[test]
fn test_invalid_signature_rejected() {
    let mut state = make_state();
    let (alice_hex, _alice_kp) = gen_account();
    let fund = Transaction::genesis(alice_hex.clone(), 1_000_000);
    state.apply_transactions(&[fund]);

    let (bob_hex, _) = gen_account();
    let (_eve_hex, eve_kp) = gen_account();
    let tx = signed_tx(&eve_kp, &alice_hex, &bob_hex, 100, MIN_FEE, 0);
    state.apply_transactions(&[tx]);
    assert_eq!(state.get_balance(&bob_hex), 0, "TX con firma inválida no debe mover fondos");
}

#[test]
fn test_empty_signature_rejected() {
    let mut state = make_state();
    let (alice_hex, _) = gen_account();
    let fund = Transaction::genesis(alice_hex.clone(), 1_000_000);
    state.apply_transactions(&[fund]);

    let (bob_hex, _) = gen_account();
    let mut tx = Transaction {
        sender: alice_hex.clone(), receiver: bob_hex.clone(),
        amount: 100, fee: MIN_FEE, nonce: 0, chain_id: CHAIN_ID,
        read_set: vec![], write_set: vec![], data: vec![],
        signature: vec![],
        timestamp: 0,
    };
    tx.signature = vec![];
    state.apply_transactions(&[tx]);
    assert_eq!(state.get_balance(&bob_hex), 0, "Firma vacía no debe ser aceptada");
}

#[test]
fn test_replay_attack_rejected() {
    let mut state = make_state();
    let (alice_hex, alice_kp) = gen_account();
    let fund = Transaction::genesis(alice_hex.clone(), 1_000_000);
    state.apply_transactions(&[fund]);

    let (bob_hex, _) = gen_account();
    let tx = signed_tx(&alice_kp, &alice_hex, &bob_hex, 100, MIN_FEE, 0);

    state.apply_transactions(&[tx.clone()]);
    let balance_after_first = state.get_balance(&bob_hex);

    state.apply_transactions(&[tx]);
    assert_eq!(state.get_balance(&bob_hex), balance_after_first,
        "TX repetida con mismo nonce debe ser rechazada (replay protection)");
}

#[test]
fn test_nonce_out_of_order_rejected() {
    let mut state = make_state();
    let (alice_hex, alice_kp) = gen_account();
    let fund = Transaction::genesis(alice_hex.clone(), 1_000_000);
    state.apply_transactions(&[fund]);

    let (bob_hex, _) = gen_account();
    let tx = signed_tx(&alice_kp, &alice_hex, &bob_hex, 100, MIN_FEE, 5);
    state.apply_transactions(&[tx]);
    assert_eq!(state.get_balance(&bob_hex), 0, "Nonce incorrecto debe ser rechazado");
}

#[test]
fn test_double_spend_rejected() {
    let mut state = make_state();
    let (alice_hex, alice_kp) = gen_account();
    let fund = Transaction::genesis(alice_hex.clone(), 500);
    state.apply_transactions(&[fund]);

    let (bob_hex, _) = gen_account();
    let tx = signed_tx(&alice_kp, &alice_hex, &bob_hex, 600, MIN_FEE, 0);
    state.apply_transactions(&[tx]);
    assert_eq!(state.get_balance(&bob_hex), 0, "Gasto doble debe ser rechazado por saldo insuficiente");
    assert_eq!(state.get_balance(&alice_hex), 500, "Alice no debe perder fondos en TX inválida");
}

#[test]
fn test_fee_below_minimum_rejected() {
    let mut state = make_state();
    let (alice_hex, alice_kp) = gen_account();
    let fund = Transaction::genesis(alice_hex.clone(), 1_000_000);
    state.apply_transactions(&[fund]);

    let (bob_hex, _) = gen_account();
    let tx = signed_tx(&alice_kp, &alice_hex, &bob_hex, 100, 0, 0);
    state.apply_transactions(&[tx]);
    assert_eq!(state.get_balance(&bob_hex), 0, "Fee < MIN_FEE debe ser rechazado");
}

#[test]
fn test_self_transfer_rejected() {
    let mut state = make_state();
    let (alice_hex, alice_kp) = gen_account();
    let fund = Transaction::genesis(alice_hex.clone(), 1_000_000);
    state.apply_transactions(&[fund]);

    let tx = signed_tx(&alice_kp, &alice_hex, &alice_hex, 100, MIN_FEE, 0);
    state.apply_transactions(&[tx]);
    assert_eq!(state.get_balance(&alice_hex), 1_000_000,
        "Transferencia a sí mismo debe ser rechazada");
}

#[test]
fn test_wrong_chain_id_rejected() {
    let mut state = make_state();
    let (alice_hex, alice_kp) = gen_account();
    let fund = Transaction::genesis(alice_hex.clone(), 1_000_000);
    state.apply_transactions(&[fund]);

    let (bob_hex, _) = gen_account();
    let mut tx = signed_tx(&alice_kp, &alice_hex, &bob_hex, 100, MIN_FEE, 0);
    tx.chain_id = 9999;
    let msg = tx.signing_message();
    tx.signature = alice_kp.sign(&msg).unwrap();

    state.apply_transactions(&[tx]);
    assert_eq!(state.get_balance(&bob_hex), 0, "chain_id incorrecto debe ser rechazado");
}

#[test]
fn test_fee_goes_to_pool() {
    let mut state = make_state();
    let (alice_hex, alice_kp) = gen_account();
    let fund = Transaction::genesis(alice_hex.clone(), 1_000_000);
    state.apply_transactions(&[fund]);

    let fee_before = state.get_balance(FEE_POOL_ADDRESS);
    let (bob_hex, _) = gen_account();
    let fee = 10;
    let tx = signed_tx(&alice_kp, &alice_hex, &bob_hex, 100, fee, 0);
    state.apply_transactions(&[tx]);

    assert_eq!(state.get_balance(FEE_POOL_ADDRESS), fee_before + fee,
        "Fee debe acumularse en FEE_POOL_ADDRESS");
}

#[test]
fn test_staking_registers_validator() {
    let mut state = make_state();
    let (alice_hex, alice_kp) = gen_account();
    let fund = Transaction::genesis(alice_hex.clone(), 1_000_000_000_000);
    state.apply_transactions(&[fund]);

    let stake_amount = MIN_STAKE;
    let tx = signed_tx(&alice_kp, &alice_hex, STAKE_ADDRESS, stake_amount, MIN_FEE, 0);
    state.apply_transactions(&[tx]);

    let stakes = state.get_stakes();
    let alice_stake = stakes.iter().find(|(addr, _)| addr == &alice_hex);
    assert!(alice_stake.is_some(), "Alice debe aparecer en la lista de stakers");
    assert_eq!(alice_stake.unwrap().1, stake_amount);
}

#[test]
fn test_genesis_not_duplicated() {
    let state1 = StateDB::new();
    let bal1 = state1.get_balance(GENESIS_ADDRESS);
    drop(state1);
    let state2 = StateDB::new();
    let bal2 = state2.get_balance(GENESIS_ADDRESS);
    assert_eq!(bal1, bal2, "Genesis no debe duplicarse al abrir la DB dos veces");
}

#[test]
fn test_tx_counter_increments() {
    let mut state = make_state();
    let (alice_hex, alice_kp) = gen_account();
    let fund = Transaction::genesis(alice_hex.clone(), 1_000_000);
    state.apply_transactions(&[fund]);

    let stats_before = state.stats();
    let (bob_hex, _) = gen_account();
    let tx = signed_tx(&alice_kp, &alice_hex, &bob_hex, 100, MIN_FEE, 0);
    state.apply_transactions(&[tx]);
    let stats_after = state.stats();

    assert!(stats_after.tx_count > stats_before.tx_count,
        "El contador de TXs debe incrementar después de cada TX válida");
}

#[test]
fn refused_transactions_name_their_reason() {
    let mut state = make_state();
    let (alice_hex, alice_kp) = gen_account();
    state.apply_transactions(&[Transaction::genesis(alice_hex.clone(), 1_000)]);
    let (bob_hex, _) = gen_account();
    let mut wrong_chain = signed_tx(&alice_kp, &alice_hex, &bob_hex, 1, MIN_FEE, 0);
    wrong_chain.chain_id = 1;
    let rs = state.apply_transactions(&[
        wrong_chain,
        signed_tx(&alice_kp, &alice_hex, &bob_hex, 1, 0, 0),
        signed_tx(&alice_kp, &alice_hex, &alice_hex, 1, MIN_FEE, 0),
        signed_tx(&alice_kp, &alice_hex, &bob_hex, 5_000, MIN_FEE, 0),
        signed_tx(&alice_kp, &alice_hex, &bob_hex, 1, MIN_FEE, 7),
    ]);
    assert_eq!(rs[0], Err(TxError::WrongChain));
    assert_eq!(rs[1], Err(TxError::FeeTooLow));
    assert_eq!(rs[2], Err(TxError::SelfTransfer));
    assert_eq!(rs[3], Err(TxError::InsufficientBalance));
    assert_eq!(rs[4], Err(TxError::BadNonce));
    assert_eq!(state.get_balance(&alice_hex), 1_000);
}

#[test]
fn transfer_conserves_total_supply() {
    let mut state = make_state();
    let (alice_hex, alice_kp) = gen_account();
    state.apply_transactions(&[Transaction::genesis(alice_hex.clone(), 1_000)]);
    let (bob_hex, _) = gen_account();
    let before = state.get_balance(&alice_hex) + state.get_balance(&bob_hex) + state.get_balance(FEE_POOL_ADDRESS);
    state.apply_transactions(&[signed_tx(&alice_kp, &alice_hex, &bob_hex, 100, 7, 0)]);
    let after = state.get_balance(&alice_hex) + state.get_balance(&bob_hex) + state.get_balance(FEE_POOL_ADDRESS);
    assert_eq!(before, after);
    assert_eq!(state.get_balance(&alice_hex), 893);
    assert_eq!(state.get_history(&bob_hex).len(), 1);
}

#[test]
fn unsigned_transfers_from_protocol_accounts_are_refused() {
    let mut state = make_state();
    let (bob_hex, _) = gen_account();
    for sender in [STAKE_ADDRESS, FEE_POOL_ADDRESS] {
        let tx = Transaction {
            sender: sender.to_string(),
            receiver: bob_hex.clone(),
            amount: 1,
            fee: MIN_FEE,
            nonce: 0,
            chain_id: CHAIN_ID,
            read_set: vec![],
            write_set: vec![],
            data: vec![],
            signature: vec![],
            timestamp: 0,
        };
        assert_eq!(state.apply_single(&tx), Err(TxError::BadSignature));
    }
    assert_eq!(state.get_balance(&bob_hex), 0);
}

#[test]
fn transactions_with_data_queue_contract_work() {
    let mut state = make_state();
    let (alice_hex, alice_kp) = gen_account();
    let mut deploy = Transaction::genesis(DEPLOY_RECEIVER.to_string(), 1);
    deploy.data = vec![1, 2, 3];
    let mut call = Transaction::genesis("contract_x".to_string(), 1);
    call.data = vec![9];
    let plain = Transaction::genesis(alice_hex.clone(), 1_000);
    assert!(state.apply_transactions(&[deploy, call, plain]).iter().all(|r| r.is_ok()));
    // a refused transaction with data asks for nothing
    let mut refused = signed_tx(&alice_kp, &alice_hex, "contract_y", 5, MIN_FEE, 7);
    refused.data = vec![4];
    assert!(state.apply_single(&refused).is_err());

    let actions = state.take_contract_actions();
    assert_eq!(actions.len(), 2);
    match &actions[0] {
        ContractAction::Deploy { code, deployer, nonce } => {
            assert_eq!(code, &vec![1u8, 2, 3]);
            assert_eq!(deployer, GENESIS_ADDRESS);
            assert_eq!(*nonce, 0);
        },
        _ => panic!("expected a deployment"),
    }
    match &actions[1] {
        ContractAction::Call { contract, input, caller } => {
            assert_eq!(contract, "contract_x");
            assert_eq!(input, &vec![9u8]);
            assert_eq!(caller, GENESIS_ADDRESS);
        },
        _ => panic!("expected a call"),
    }
    assert!(state.take_contract_actions().is_empty());
}
