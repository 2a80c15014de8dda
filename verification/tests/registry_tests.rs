use redflag::dex::{DexState, PAIR_TOKENS};
use redflag::ledger::StateDB;
use redflag::governance::{GovernanceError, GovernanceParam, GovernanceState, QUORUM_PERCENT};
use redflag::oracle::{OracleError, OracleState};
use redflag::staking::{StakingError, StakingState, MIN_STAKE, UNSTAKE_DELAY_ROUNDS};
use redflag::crypto::HybridKeyExchange;
use redflag::stealth::{create_stealth_output, derive_spend_key_seed, generate_stealth_keypair, scan_stealth_tx, stealth_match, StealthPayload};
use redflag::strmap::str_less;
use redflag::tokens::{TokenError, TokenLedger, MAX_TOKEN_SUPPLY, WEI_PER_UNIT};

#[test]
fn text_order_is_code_point_order() {
    assert!(str_less("RF_wARB", "RF_wBNB"));
    assert!(str_less("1", "10"));
    assert!(str_less("10", "2"));
    assert!(str_less("", "a"));
    assert!(!str_less("a", "a"));
    assert!(!str_less("b", "a"));
    assert!(str_less("Z", "a"));
}

#[test]
fn pools_are_listed_by_identifier() {
    let mut dex = DexState::new();
    for token in ["wETH", "wBNB", "wARB", "wUSDC"] {
        dex.create_pool(token, 1).unwrap();
    }
    let ids: Vec<String> = dex.list_pools().into_iter().map(|p| p.pool_id).collect();
    assert_eq!(ids, vec!["RF_wARB", "RF_wBNB", "RF_wETH", "RF_wUSDC"]);
}

#[test]
fn a_fresh_chain_lists_all_nine_pairs() {
    let state = StateDB::new();
    let ids: Vec<String> = state.dex.list_pools().into_iter().map(|p| p.pool_id).collect();
    assert_eq!(
        ids,
        vec!["RF_wARB", "RF_wAVAX", "RF_wBNB", "RF_wBTC", "RF_wETH", "RF_wMATIC", "RF_wSOL", "RF_wUSDC", "RF_wUSDT"]
    );
    assert_eq!(PAIR_TOKENS.len(), 9);
    assert!(state.dex.list_pools().iter().all(|p| p.reserve_rf == 0 && p.reserve_b == 0 && p.total_lp == 0));
}

#[test]
fn staking_lifecycle() {
    let mut s = StakingState::new();
    assert_eq!(s.stake("carol", MIN_STAKE - 1, 1), Err(StakingError::BelowMinimum));
    s.stake("carol", 30_000, 1).unwrap();
    s.stake("alice", 10_000, 2).unwrap();
    s.stake("bob", 20_000, 3).unwrap();
    s.stake("alice", 10_000, 4).unwrap();
    let alice = s.get_stake("alice").unwrap();
    assert_eq!((alice.amount, alice.since_round, alice.unbonding_at), (20_000, 2, 0));

    let names: Vec<String> = s.active_validators().into_iter().map(|r| r.address).collect();
    assert_eq!(names, vec!["alice", "bob", "carol"]);
    let st = s.stats();
    assert_eq!((st.total_staked, st.validator_count, st.min_stake), (70_000, 3, MIN_STAKE));

    // shares of 700 in proportion 2:2:3 of 70_000
    assert_eq!(
        s.distribute_fees(700),
        vec![("alice".to_string(), 200), ("bob".to_string(), 200), ("carol".to_string(), 300)]
    );
    assert!(s.distribute_fees(0).is_empty());

    assert_eq!(s.complete_unstake("bob", 5), Err(StakingError::NotUnbonding));
    assert_eq!(s.begin_unstake("bob", 5), Ok(5 + UNSTAKE_DELAY_ROUNDS));
    assert_eq!(s.begin_unstake("bob", 6), Err(StakingError::AlreadyUnbonding));
    assert_eq!(s.complete_unstake("bob", 5 + UNSTAKE_DELAY_ROUNDS - 1), Err(StakingError::StillUnbonding));
    let names: Vec<String> = s.active_validators().into_iter().map(|r| r.address).collect();
    assert_eq!(names, vec!["alice", "carol"]);
    assert_eq!(s.complete_unstake("bob", 5 + UNSTAKE_DELAY_ROUNDS), Ok(20_000));
    assert!(s.get_stake("bob").is_none());
    assert_eq!(s.begin_unstake("dave", 1), Err(StakingError::NoStake));
}

#[test]
fn proposals_are_listed_by_the_text_of_their_ids() {
    let mut g = GovernanceState::new();
    for k in 0..12u64 {
        let id = g.create_proposal(
            "alice".to_string(),
            format!("p{}", k),
            String::new(),
            GovernanceParam::MinFee,
            k,
            10,
        );
        assert_eq!(id, k + 1);
    }
    let ids: Vec<u64> = g.list().into_iter().map(|p| p.id).collect();
    assert_eq!(ids, vec![1, 10, 11, 12, 2, 3, 4, 5, 6, 7, 8, 9]);
    assert_eq!(g.get(12).unwrap().title, "p11");
    assert!(g.get(13).is_none());
}

#[test]
fn governance_votes_and_outcomes() {
    let mut g = GovernanceState::new();
    let a = g.create_proposal("alice".to_string(), "a".to_string(), String::new(), GovernanceParam::MinStake, 5, 0);
    let b = g.create_proposal("bob".to_string(), "b".to_string(), String::new(), GovernanceParam::UnstakeDelay, 7, 50);
    assert_eq!(g.vote(a, "carol", true, 600, 10), Ok(()));
    assert_eq!(g.vote(a, "carol", false, 600, 11), Err(GovernanceError::AlreadyVoted));
    assert_eq!(g.vote(a, "dave", false, 0, 11), Err(GovernanceError::NoStake));
    assert_eq!(g.vote(a, "dave", false, 100, 11), Ok(()));
    assert_eq!(g.vote(b, "erin", false, 50, 60), Ok(()));
    assert_eq!(g.vote(99, "erin", true, 50, 60), Err(GovernanceError::NotFound));
    assert_eq!(g.vote(a, "erin", true, 50, 101), Err(GovernanceError::VotingClosed));
    assert_eq!(g.active(101).len(), 1);

    // at round 101 only the first has closed: 700 votes against a quorum of 10% of 5000
    let done = g.finalize_expired(101, 5_000);
    assert_eq!(done.len(), 1);
    assert_eq!(done[0].id, a);
    assert!(done[0].executed && done[0].passed);
    assert_eq!(QUORUM_PERCENT, 10);
    assert!(g.finalize_expired(101, 5_000).is_empty());

    // the second: 50 votes, all against
    let done = g.finalize_expired(200, 5_000);
    assert_eq!(done.len(), 1);
    assert!(done[0].executed && !done[0].passed);
    assert_eq!(g.vote(b, "frank", true, 1, 100), Err(GovernanceError::AlreadyExecuted));
}

#[test]
fn oracle_takes_the_median_of_recent_submissions() {
    let mut o = OracleState::new();
    assert_eq!(o.submit_price("v1", "RF/EUR", 1, 1), Err(OracleError::UnsupportedPair));
    o.submit_price("v1", "RF/USD", 100, 10).unwrap();
    o.submit_price("v2", "RF/USD", 300, 10).unwrap();
    o.submit_price("v3", "RF/USD", 200, 10).unwrap();
    let p = o.get_price("RF/USD").unwrap();
    assert_eq!((p.price_usd_micro, p.submissions, p.last_updated_round), (200, 3, 10));
    // v1 changes its price
    o.submit_price("v1", "RF/USD", 400, 11).unwrap();
    assert_eq!(o.get_price("RF/USD").unwrap().price_usd_micro, 300);
    // long after, only the new submission counts
    o.submit_price("v4", "RF/USD", 50, 100).unwrap();
    let p = o.get_price("RF/USD").unwrap();
    assert_eq!((p.price_usd_micro, p.submissions), (50, 1));
    o.submit_price("v1", "RF/BNB", 7, 100).unwrap();
    let pairs: Vec<String> = o.all_prices().into_iter().map(|p| p.pair).collect();
    assert_eq!(pairs, vec!["RF/USD", "RF/BNB"]);
    assert!(o.get_price("RF/ETH").is_none());
}

#[test]
fn token_ledger_operations() {
    let mut l = TokenLedger::new();
    assert_eq!(l.credit("alice", "wETH", 0), Err(TokenError::ZeroAmount));
    assert_eq!(l.credit("alice", "wUSDT", 5), Ok(5));
    assert_eq!(l.credit("alice", "wETH", 10), Ok(10));
    assert_eq!(l.debit("alice", "wETH", 11), Err(TokenError::InsufficientBalance));
    assert_eq!(l.debit("alice", "wETH", 4), Ok(6));
    let held: Vec<(String, u64)> = l.get_all_balances("alice").into_iter().map(|b| (b.token, b.balance)).collect();
    assert_eq!(held, vec![("wETH".to_string(), 6), ("wUSDT".to_string(), 5)]);

    assert_eq!(l.mint_from_bridge("bob", "wBNB", WEI_PER_UNIT - 1), Err(TokenError::AmountTooSmall));
    assert_eq!(l.mint_from_bridge("bob", "wBNB", 3 * WEI_PER_UNIT + 7), Ok(3));
    assert_eq!(l.get_balance("bob", "wBNB"), 3);
    assert_eq!(l.burn_for_bridge("bob", "wBNB", 2), Ok(2 * WEI_PER_UNIT));
    assert_eq!(l.burn_for_bridge("bob", "wBNB", 2), Err(TokenError::InsufficientBalance));
    assert_eq!(l.get_balance("bob", "wBNB"), 1);

    assert_eq!(l.pool_credit("RF_wETH", "wETH", 9), Ok(()));
    assert_eq!(l.pool_debit("RF_wETH", "wETH", 10), Err(TokenError::InsufficientBalance));
    assert_eq!(l.pool_debit("RF_wETH", "wETH", 9), Ok(()));
    assert_eq!(l.get_balance("RF_wETH", "wETH"), 0);
}

#[test]
fn token_supply_is_capped_per_token_across_addresses() {
    let mut l = TokenLedger::new();
    assert_eq!(l.credit("alice", "wETH", MAX_TOKEN_SUPPLY - 10), Ok(MAX_TOKEN_SUPPLY - 10));
    // bob's own balance would be small, but the token's supply would pass the cap
    assert_eq!(l.credit("bob", "wETH", 11), Err(TokenError::ExceedsMaxSupply));
    assert_eq!(l.get_balance("bob", "wETH"), 0);
    assert_eq!(l.credit("bob", "wETH", 10), Ok(10));
    assert_eq!(l.supply_of("wETH"), MAX_TOKEN_SUPPLY);
    // another token has its own supply
    assert_eq!(l.credit("bob", "wBNB", 11), Ok(11));
    // a debit frees room under the cap
    assert_eq!(l.debit("alice", "wETH", 5), Ok(MAX_TOKEN_SUPPLY - 15));
    assert_eq!(l.supply_of("wETH"), MAX_TOKEN_SUPPLY - 5);
    assert_eq!(l.credit("carol", "wETH", 5), Ok(5));
    assert_eq!(l.credit("carol", "wETH", 1), Err(TokenError::ExceedsMaxSupply));
}

#[test]
fn stealth_payment_is_found_only_by_its_payee() {
    let (pk, dk) = generate_stealth_keypair().unwrap();
    let (_, other_dk) = generate_stealth_keypair().unwrap();
    let payload = create_stealth_output(&pk).unwrap();
    assert_eq!(payload.one_time_address.len(), 40);
    assert_eq!(scan_stealth_tx(&dk, &payload), Some(payload.one_time_address.clone()));
    assert_eq!(scan_stealth_tx(&other_dk, &payload), None);
    assert_eq!(scan_stealth_tx(&dk[..10], &payload), None);
    let seed = derive_spend_key_seed(&dk, &payload.kem_ciphertext).unwrap();
    assert_eq!(seed, derive_spend_key_seed(&dk, &payload.kem_ciphertext).unwrap());
    assert_ne!(seed, derive_spend_key_seed(&other_dk, &payload.kem_ciphertext).unwrap());
}

#[test]
fn stealth_match_decides_by_the_secret() {
    let (pk, dk) = generate_stealth_keypair().unwrap();
    let payload = create_stealth_output(&pk).unwrap();
    let secret = HybridKeyExchange::decapsulate_kem(&dk, &payload.kem_ciphertext).unwrap();
    assert_eq!(stealth_match(&secret, &payload), Some(payload.one_time_address.clone()));
    let mut other = secret.clone();
    other[0] ^= 1;
    assert_eq!(stealth_match(&other, &payload), None);
    let wrong_address = StealthPayload {
        kem_ciphertext: payload.kem_ciphertext.clone(),
        view_tag: payload.view_tag,
        one_time_address: format!("{}0", payload.one_time_address),
    };
    assert_eq!(stealth_match(&secret, &wrong_address), None);
}

#[test]
fn set_balance_moves_the_supply() {
    let mut l = TokenLedger::new();
    assert_eq!(l.credit("alice", "wETH", 10), Ok(10));
    assert_eq!(l.set_balance("alice", "wETH", 4), Ok(()));
    assert_eq!(l.supply_of("wETH"), 4);
    assert_eq!(l.set_balance("bob", "wETH", MAX_TOKEN_SUPPLY), Err(TokenError::ExceedsMaxSupply));
    assert_eq!(l.get_balance("bob", "wETH"), 0);
    assert_eq!(l.set_balance("bob", "wETH", MAX_TOKEN_SUPPLY - 4), Ok(()));
    assert_eq!(l.supply_of("wETH"), MAX_TOKEN_SUPPLY);
    // an address ending like a token name keeps its own balance
    assert_eq!(l.credit("x:wETH", "wBNB", 3), Ok(3));
    assert_eq!(l.get_balance("x", "wETH:wBNB"), 0);
}
