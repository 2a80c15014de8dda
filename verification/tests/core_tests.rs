use redflag::chain::Transaction;

#[test]
fn test_conflict_detection() {
    let tx1 = Transaction::new_transfer("alice".into(), "bob".into(), 100, 1, 0);
    let tx2 = Transaction::new_transfer("carol".into(), "dave".into(), 50, 1, 0);
    let tx3 = Transaction::new_transfer("alice".into(), "carol".into(), 20, 1, 0);

    assert!(!tx1.conflicts_with(&tx2), "TX sin cuentas comunes no deben conflictuar");
    assert!(tx1.conflicts_with(&tx3), "TX que comparten sender deben conflictuar");
}

#[test]
fn test_parallel_groups() {
    let tx1 = Transaction::new_transfer("alice".into(), "bob".into(), 100, 1, 0);
    let tx2 = Transaction::new_transfer("carol".into(), "dave".into(), 50, 1, 0);
    let tx3 = Transaction::new_transfer("alice".into(), "eve".into(), 10, 1, 1);

    let groups = Transaction::parallel_groups(vec![tx1, tx2, tx3]);
    assert_eq!(groups.len(), 2);
}

#[test]
fn parallel_groups_keep_each_transaction_once_and_conflict_free() {
    let txs = vec![
        Transaction::new_transfer("a".into(), "b".into(), 1, 1, 0),
        Transaction::new_transfer("b".into(), "c".into(), 1, 1, 0),
        Transaction::new_transfer("d".into(), "e".into(), 1, 1, 0),
        Transaction::new_transfer("c".into(), "d".into(), 1, 1, 0),
    ];
    let groups = Transaction::parallel_groups(txs);
    let total: usize = groups.iter().map(|g| g.len()).sum();
    assert_eq!(total, 4);
    for g in &groups {
        for i in 0..g.len() {
            for j in (i + 1)..g.len() {
                assert!(!g[i].conflicts_with(&g[j]));
            }
        }
    }
    // first fit: a->b and d->e share the first group
    assert_eq!(groups[0][0].sender, "a");
    assert_eq!(groups[0][1].sender, "d");
}

#[test]
fn new_transfer_raises_fee_to_minimum() {
    let tx = Transaction::new_transfer("a".into(), "b".into(), 5, 0, 3);
    assert_eq!(tx.fee, redflag::chain::MIN_FEE);
    assert_eq!(tx.chain_id, redflag::chain::CHAIN_ID);
    assert_eq!(tx.read_set, vec!["a".to_string(), "b".to_string()]);
}

#[test]
fn signing_message_ignores_signature() {
    let mut tx = Transaction::new_transfer("a".into(), "b".into(), 5, 1, 0);
    let m1 = tx.signing_message();
    tx.signature = vec![1, 2, 3];
    assert_eq!(tx.signing_message(), m1);
}
