use redflag::bridge::{
    approval_threshold, evm_scan_window, mint_secret_acceptable, ChainBackoff, EvmChain,
};

#[test]
fn backoff_doubles_up_to_five_minutes() {
    let mut b = ChainBackoff::new();
    let waits: Vec<u64> = (0..6).map(|_| b.on_error(1_000)).collect();
    assert_eq!(waits, vec![30, 60, 120, 240, 300, 300]);
    assert!(b.is_blocked(1_299));
    assert!(!b.is_blocked(1_300));
    b.on_success();
    assert!(!b.is_blocked(0));
    assert_eq!(b.consecutive_errors, 0);
}

#[test]
fn scan_window_looks_back_at_most_a_hundred_blocks() {
    assert_eq!(evm_scan_window(0, 1_000, 12), Some((900, 988)));
    assert_eq!(evm_scan_window(950, 1_000, 12), Some((950, 988)));
    assert_eq!(evm_scan_window(990, 1_000, 12), None);
    assert_eq!(evm_scan_window(0, 0, 12), None);
}

#[test]
fn chains_and_thresholds() {
    assert_eq!(approval_threshold(1), 1);
    assert_eq!(approval_threshold(3), 2);
    assert_eq!(approval_threshold(4), 3);
    assert_eq!(EvmChain::from_chain_id(97), Some(EvmChain::BscTestnet));
    assert_eq!(EvmChain::from_chain_id(1), None);
    assert_eq!(EvmChain::PolygonAmoy.chain_id(), 80002);
    assert_eq!(EvmChain::EthereumSepolia.wrapped_token(), "wETH");
    assert!(mint_secret_acceptable("x"));
    assert!(!mint_secret_acceptable("bridge_dev_secret"));
    assert!(!mint_secret_acceptable(""));
}
