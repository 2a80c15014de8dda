use redflag::api::{
    balance_response, history_response, mempool_response, network_info, status_response, vertex_summaries,
    NetworkMessage, TOPIC_BLOCKS, TOPIC_TRANSACTIONS,
};
use redflag::chain::Transaction;
use redflag::consensus::{Certificate, ConsensusEngine, Dag, Mempool};
use redflag::crypto::SigningKeyPair;
use redflag::explorer::{address_report, starts_with, supply_report, vertex_report, TOTAL_ISSUED};
use redflag::handshake::{complete_handshake, initiate_handshake, respond_to_handshake, PqcRequest, PqcResponse};
use redflag::codec::{encode_transaction, IntCoding};
use redflag::explorer::transaction_report;
use redflag::ledger::StateDB;
use redflag::rounds::step_round;
use redflag::sync::{answer_dag_request, apply_dag_response, ConsensusRequest, ConsensusResponse};
use redflag::threshold::ThresholdMempool;

fn engine() -> ConsensusEngine {
    let kp = SigningKeyPair::generate().unwrap();
    ConsensusEngine::new(Dag::new(), Mempool::new(kp), StateDB::new(), ThresholdMempool::new().unwrap(), vec![], 0, &[])
}

fn validator_engine(others: Vec<Vec<u8>>) -> ConsensusEngine {
    let kp = SigningKeyPair::generate().unwrap();
    let mut validators = vec![kp.public_key()];
    validators.extend(others);
    ConsensusEngine::new(Dag::new(), Mempool::new(kp), StateDB::new(), ThresholdMempool::new().unwrap(), validators, 0, &[])
}

#[test]
fn handshake_sides_agree_on_the_secret() {
    let (offer, pending) = initiate_handshake().unwrap();
    let (answer, responder_secret) = respond_to_handshake(&offer).unwrap();
    let initiator_secret = complete_handshake(pending, &answer).unwrap().unwrap();
    assert_eq!(initiator_secret.shared_key, responder_secret.shared_key);
    let (_, pending2) = initiate_handshake().unwrap();
    assert!(complete_handshake(pending2, &PqcResponse::Error("no".to_string())).is_none());
    let bad = PqcRequest::InitHandshake { x25519_public: vec![1; 32], kem_public: vec![0; 10] };
    assert!(respond_to_handshake(&bad).is_err());
}

#[test]
fn peers_synchronise_vertices_and_validators() {
    let mut alice = engine();
    let mut bob = engine();
    let v1 = alice.mempool.create_vertex(1, vec![]).unwrap();
    let v2 = alice.mempool.create_vertex(2, vec![v1.id()]).unwrap();
    let id1 = alice.dag.insert_vertex(v1);
    let id2 = alice.dag.insert_vertex(v2);
    alice.dag.insert_certificate(Certificate { vertex_id: id1, round: 1, signatures: vec![] });

    let key = vec![7u8; 4];
    match answer_dag_request(&alice.dag, &key, &ConsensusRequest::GetValidatorKey) {
        ConsensusResponse::ValidatorKey(k) => assert_eq!(k, key),
        _ => panic!("wrong answer"),
    }
    assert!(matches!(answer_dag_request(&alice.dag, &key, &ConsensusRequest::Ping), ConsensusResponse::Pong));
    match answer_dag_request(&alice.dag, &key, &ConsensusRequest::GetVertex([0u8; 32])) {
        ConsensusResponse::Vertex(v) => assert!(v.is_none()),
        _ => panic!("wrong answer"),
    }
    let batch = answer_dag_request(&alice.dag, &key, &ConsensusRequest::SyncFrom(2));
    match &batch {
        ConsensusResponse::SyncBatch(vs) => {
            assert_eq!(vs.len(), 1);
            assert_eq!(vs[0].round, 2);
        },
        _ => panic!("wrong answer"),
    }
    let all = answer_dag_request(&alice.dag, &key, &ConsensusRequest::SyncFrom(0));
    apply_dag_response(&mut bob, all);
    assert_eq!(bob.dag.vertex_count(), 2);
    assert!(bob.dag.get_vertex(&id2).is_some());
    let certs = answer_dag_request(&alice.dag, &key, &ConsensusRequest::GetCertificate(1));
    apply_dag_response(&mut bob, certs);
    assert_eq!(bob.dag.get_round_certificates(1).len(), 1);
    apply_dag_response(&mut bob, ConsensusResponse::ValidatorKey(key.clone()));
    apply_dag_response(&mut bob, ConsensusResponse::ValidatorKey(key.clone()));
    assert_eq!(bob.validator_count(), 1);
}

#[test]
fn explorer_reports() {
    let mut e = engine();
    let rep = address_report(&e.state, "  RedFlag_Genesis_Alpha ").unwrap();
    assert_eq!(rep.address, "RedFlag_Genesis_Alpha");
    assert_eq!(rep.tx_count, 0);
    assert!(address_report(&e.state, "nobody").is_none());

    e.state.apply_transactions(&[Transaction::genesis("carol".into(), 40)]);
    let rep = address_report(&e.state, "carol").unwrap();
    assert_eq!(rep.balance, 40);
    assert_eq!(rep.total_received, 40);
    assert_eq!(rep.total_sent, 0);
    assert_eq!(rep.history.len(), 1);

    let supply = supply_report(&e.state, "faucet");
    assert_eq!(supply.total, TOTAL_ISSUED);
    assert_eq!(supply.faucet, 0);

    let v = e.mempool.create_vertex(1, vec![]).unwrap();
    let id = e.dag.insert_vertex(v);
    let id_hex = hex::encode(id);
    let found = vertex_report(&e, &id_hex[..10]).unwrap();
    assert_eq!(found.id_hex, id_hex);
    assert!(!found.committed);
    assert!(vertex_report(&e, "abc").is_none());
    assert!(starts_with("abcdef", "abc"));
    assert!(!starts_with("ab", "abc"));
}

#[test]
fn read_answers() {
    let mut e = engine();
    let b = balance_response(&e.state, "RedFlag_Genesis_Alpha".to_string());
    assert!(b.balance > 0);
    assert_eq!(balance_response(&e.state, "x".to_string()).balance, 0);
    let st = status_response(&e, "peer".to_string(), "1.0");
    assert_eq!(st.chain_id, redflag::chain::CHAIN_ID);
    assert_eq!(st.total_vertices, 0);
    let info = network_info("1.0");
    assert_eq!(info.chain_name, "redflag.web3");
    assert_eq!(history_response(&e.state, "x".to_string()).count, 0);
    e.mempool.add_transaction(Transaction::new_transfer("a".into(), "b".into(), 1, 1, 0));
    e.mempool.add_transaction(Transaction::new_transfer("c".into(), "d".into(), 1, 1, 0));
    assert_eq!(mempool_response(&e.mempool).count, 2);
    let v = e.mempool.create_vertex(1, vec![]).unwrap();
    e.dag.insert_vertex(v);
    let sums = vertex_summaries(&e);
    assert_eq!(sums.len(), 1);
    assert_eq!(sums[0].tx_count, 2);
    assert_eq!(sums[0].author.len(), 16);
    assert_eq!(NetworkMessage::NewBlock(vec![]).topic(), TOPIC_BLOCKS);
    assert_eq!(NetworkMessage::NewEncryptedTransaction(vec![]).topic(), TOPIC_TRANSACTIONS);
}

#[test]
fn round_loop_makes_certifies_and_commits() {
    let mut e = validator_engine(vec![]);
    assert!(step_round(&mut e).unwrap().is_none());
    assert_eq!(e.get_current_round(), 0);

    e.mempool.add_transaction(Transaction::genesis("dave".into(), 5));
    let r1 = step_round(&mut e).unwrap().unwrap();
    assert_eq!(r1.vertex.round, 1);
    assert!(r1.vertex.parents.is_empty());
    assert_eq!(e.get_current_round(), 1);
    assert_eq!(e.dag.get_round_certificates(1).len(), 1);
    assert_eq!(e.threshold_mempool.get_current_ek().0, 1);
    assert_eq!(r1.rotated_ek.as_ref().map(|k| k.len()), Some(1184));

    e.mempool.add_transaction(Transaction::genesis("erin".into(), 6));
    let r2 = step_round(&mut e).unwrap().unwrap();
    assert_eq!(r2.vertex.round, 2);
    assert_eq!(r2.vertex.parents, vec![r1.vertex.id()]);
    // the round-1 vertex is complete once round 2 is made
    assert_eq!(r2.committed_txs.len(), 1);
    assert_eq!(r2.committed_txs[0].receiver, "dave");
    assert_eq!(e.get_current_round(), 2);
}

#[test]
fn a_vertex_without_two_thirds_of_the_signatures_stays_uncommitted() {
    let other = SigningKeyPair::generate().unwrap().public_key();
    let mut e = validator_engine(vec![other]);
    e.mempool.add_transaction(Transaction::genesis("dave".into(), 5));
    let r1 = step_round(&mut e).unwrap().unwrap();
    e.mempool.add_transaction(Transaction::genesis("erin".into(), 6));
    let r2 = step_round(&mut e).unwrap().unwrap();
    // one signature of two validators is below two thirds
    assert!(r2.committed_txs.is_empty());
    assert!(e.committed_ids().is_empty());
    assert_eq!(e.state.get_balance("dave"), 0);

    // a third validator's vertex of round 1 signed by nobody is not committed either
    let mut lone = engine();
    let v = lone.mempool.create_vertex(1, vec![]).unwrap();
    let id = lone.dag.insert_vertex(v);
    lone.dag.insert_certificate(Certificate { vertex_id: id, round: 1, signatures: vec![] });
    assert!(lone.order_transactions(2).is_empty());
    assert!(lone.committed_ids().is_empty());
    assert_eq!(r1.vertex.round, 1);
}

#[test]
fn explorer_finds_transactions_by_hash() {
    let mut state = StateDB::new();
    let tx = Transaction::genesis("gina".into(), 9);
    state.apply_transactions(&[tx.clone()]);
    let shown = hex::encode(blake3::hash(&encode_transaction(&tx, IntCoding::Leb128)).as_bytes());
    let indexed = hex::encode(blake3::hash(&encode_transaction(&tx, IntCoding::Varint)).as_bytes());
    let by_index = transaction_report(&state, &indexed).unwrap();
    assert_eq!(by_index.hash, shown);
    assert_eq!(by_index.tx.receiver, "gina");
    let by_prefix = transaction_report(&state, &shown[..6]).unwrap();
    assert_eq!(by_prefix.tx.amount, 9);
    assert!(transaction_report(&state, "zz").is_none());
}

#[test]
fn state_finds_transactions_by_index_hash() {
    let mut state = StateDB::new();
    let tx = Transaction::genesis("hank".into(), 4);
    state.apply_transactions(&[tx.clone()]);
    let indexed = hex::encode(blake3::hash(&encode_transaction(&tx, IntCoding::Varint)).as_bytes());
    assert_eq!(state.get_tx_by_hash(&indexed).map(|t| t.receiver), Some("hank".to_string()));
    assert!(state.get_tx_by_hash("zz").is_none());
    assert!(state.get_tx_by_hash(&"00".repeat(32)).is_none());
}
