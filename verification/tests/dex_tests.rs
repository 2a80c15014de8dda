use redflag::dex::{DexState, LiquidityPool, DexError, integer_sqrt};

fn seeded_pool(dex: &mut DexState) {
    dex.create_pool("wETH", 1).unwrap();
    dex.add_liquidity("RF_wETH", "lp_provider", 1_000_000, 500_000, 1).unwrap();
}

#[test]
fn test_create_pool_once() {
    let mut dex = DexState::new();
    dex.create_pool("wETH", 1).unwrap();
    let result = dex.create_pool("wETH", 2);
    assert!(result.is_err(), "No se puede crear el mismo pool dos veces");
}

#[test]
fn test_add_liquidity_below_minimum() {
    let mut dex = DexState::new();
    dex.create_pool("wETH", 1).unwrap();
    let result = dex.add_liquidity("RF_wETH", "alice", 100, 100, 1);
    assert!(result.is_err(), "Liquidez por debajo del mínimo debe ser rechazada");
}

#[test]
fn test_add_liquidity_increases_reserves() {
    let mut dex = DexState::new();
    seeded_pool(&mut dex);
    let pool = dex.get_pool("RF_wETH").unwrap();
    assert_eq!(pool.reserve_rf, 1_000_000);
    assert_eq!(pool.reserve_b, 500_000);
    assert!(pool.total_lp > 0);
}

#[test]
fn test_invariant_k_preserved_rf_to_b() {
    let mut dex = DexState::new();
    seeded_pool(&mut dex);
    let pool_before = dex.get_pool("RF_wETH").unwrap();
    let k_before = pool_before.reserve_rf as u128 * pool_before.reserve_b as u128;

    dex.execute_swap_rf_to_b("RF_wETH", "trader", 10_000, 0, "hash1", 2).unwrap();

    let pool_after = dex.get_pool("RF_wETH").unwrap();
    let k_after = pool_after.reserve_rf as u128 * pool_after.reserve_b as u128;
    assert!(k_after >= k_before, "Invariante k debe mantenerse: antes={} después={}", k_before, k_after);
}

#[test]
fn test_invariant_k_preserved_b_to_rf() {
    let mut dex = DexState::new();
    seeded_pool(&mut dex);
    let pool_before = dex.get_pool("RF_wETH").unwrap();
    let k_before = pool_before.reserve_rf as u128 * pool_before.reserve_b as u128;

    dex.execute_swap_b_to_rf("RF_wETH", "trader", 5_000, 0, "hash2", 2).unwrap();

    let pool_after = dex.get_pool("RF_wETH").unwrap();
    let k_after = pool_after.reserve_rf as u128 * pool_after.reserve_b as u128;
    assert!(k_after >= k_before, "Invariante k debe mantenerse en swap B→RF");
}

#[test]
fn test_slippage_protection_rf_to_b() {
    let mut dex = DexState::new();
    seeded_pool(&mut dex);
    let result = dex.execute_swap_rf_to_b("RF_wETH", "trader", 10_000, 999_999_999, "hash3", 2);
    assert!(result.is_err(), "Slippage excesivo debe ser rechazado");
    assert!(result.unwrap_err().message().contains("Slippage"));
}

#[test]
fn test_slippage_protection_b_to_rf() {
    let mut dex = DexState::new();
    seeded_pool(&mut dex);
    let result = dex.execute_swap_b_to_rf("RF_wETH", "trader", 5_000, 999_999_999, "hash4", 2);
    assert!(result.is_err(), "Slippage excesivo debe ser rechazado");
}

#[test]
fn test_zero_amount_swap_rejected() {
    let mut dex = DexState::new();
    seeded_pool(&mut dex);
    assert!(dex.execute_swap_rf_to_b("RF_wETH", "trader", 0, 0, "hash5", 2).is_err());
    assert!(dex.execute_swap_b_to_rf("RF_wETH", "trader", 0, 0, "hash6", 2).is_err());
}

#[test]
fn test_swap_empty_pool_rejected() {
    let mut dex = DexState::new();
    dex.create_pool("wBNB", 1).unwrap();
    assert!(dex.execute_swap_rf_to_b("RF_wBNB", "trader", 1000, 0, "hash7", 2).is_err());
}

#[test]
fn test_remove_liquidity_excess_rejected() {
    let mut dex = DexState::new();
    seeded_pool(&mut dex);
    let pos = dex.get_lp_position("lp_provider", "RF_wETH").unwrap();
    let result = dex.remove_liquidity("RF_wETH", "lp_provider", pos.lp_tokens + 1, 2);
    assert!(result.is_err(), "No se puede retirar más LP tokens de los que se poseen");
}

#[test]
fn test_remove_liquidity_from_empty_position() {
    let mut dex = DexState::new();
    seeded_pool(&mut dex);
    let result = dex.remove_liquidity("RF_wETH", "stranger", 100, 2);
    assert!(result.is_err(), "No se puede retirar liquidez sin posición");
}

#[test]
fn test_calc_swap_output_nonzero() {
    let pool = LiquidityPool {
        pool_id: "RF_wETH".into(),
        token_b: "wETH".into(),
        reserve_rf: 1_000_000,
        reserve_b: 500_000,
        total_lp: 100,
        price_rf_in_b: 500_000,
        volume_rf: 0,
        fees_collected: 0,
        created_at: 0,
        updated_at: 0,
    };
    let (out, fee) = pool.calc_swap_rf_to_b(10_000);
    assert!(out > 0, "Swap output debe ser > 0");
    assert!(fee > 0, "Fee debe ser > 0");
    assert!(out < pool.reserve_b);
}

#[test]
fn swap_formula_exact_values() {
    let pool = LiquidityPool {
        pool_id: "RF_wETH".into(),
        token_b: "wETH".into(),
        reserve_rf: 1_000_000,
        reserve_b: 500_000,
        total_lp: 100,
        price_rf_in_b: 500_000,
        volume_rf: 0,
        fees_collected: 0,
        created_at: 0,
        updated_at: 0,
    };
    // fee 0.3%: 30; after fee 9_970; out = 500_000 * 9_970 / 1_009_970 = 4_935
    assert_eq!(pool.calc_swap_rf_to_b(10_000), (4_935, 30));
    // B side: fee 15; after 4_985; out = 1_000_000 * 4_985 / 504_985 = 9_871
    assert_eq!(pool.calc_swap_b_to_rf(5_000), (9_871, 15));
}

#[test]
fn first_deposit_gets_square_root_lp() {
    let mut dex = DexState::new();
    seeded_pool(&mut dex);
    let pos = dex.get_lp_position("lp_provider", "RF_wETH").unwrap();
    // sqrt(1_000_000 * 500_000) = 707_106
    assert_eq!(pos.lp_tokens, 707_106);
    assert_eq!(dex.get_pool("RF_wETH").unwrap().total_lp, 707_106);
    assert_eq!(integer_sqrt(500_000_000_000), 707_106);
}

#[test]
fn withdrawing_everything_returns_the_reserves() {
    let mut dex = DexState::new();
    seeded_pool(&mut dex);
    let lp = dex.get_lp_position("lp_provider", "RF_wETH").unwrap().lp_tokens;
    let (rf, b) = dex.remove_liquidity("RF_wETH", "lp_provider", lp, 3).unwrap();
    assert_eq!((rf, b), (1_000_000, 500_000));
    let pool = dex.get_pool("RF_wETH").unwrap();
    assert_eq!((pool.reserve_rf, pool.reserve_b, pool.total_lp), (0, 0, 0));
}

#[test]
fn withdrawing_from_an_empty_lp_supply_is_refused() {
    let mut dex = DexState::new();
    seeded_pool(&mut dex);
    let lp = dex.get_lp_position("lp_provider", "RF_wETH").unwrap().lp_tokens;
    dex.remove_liquidity("RF_wETH", "lp_provider", lp, 3).unwrap();
    let r = dex.remove_liquidity("RF_wETH", "lp_provider", 0, 4);
    assert!(matches!(r, Err(DexError::EmptyLpSupply)));
    assert_eq!(r.unwrap_err().message(), "Pool vacío — total_lp es 0");
    assert_eq!(dex.get_pool("RF_wETH").unwrap().total_lp, 0);
    assert_eq!(dex.get_lp_position("lp_provider", "RF_wETH").unwrap().lp_tokens, 0);
}

#[test]
fn swap_is_recorded_newest_first() {
    let mut dex = DexState::new();
    seeded_pool(&mut dex);
    dex.execute_swap_rf_to_b("RF_wETH", "t", 10_000, 0, "h1", 2).unwrap();
    dex.execute_swap_b_to_rf("RF_wETH", "t", 5_000, 0, "h2", 3).unwrap();
    let h = dex.get_swap_history("RF_wETH", 10);
    assert_eq!(h.len(), 2);
    assert_eq!(h[0].tx_hash, "h2");
    assert_eq!(h[1].tx_hash, "h1");
    assert_eq!(dex.get_price_history("RF_wETH", 10).len(), 2);
}

#[test]
fn unknown_pool_is_refused() {
    let mut dex = DexState::new();
    let r = dex.execute_swap_rf_to_b("RF_nope", "t", 10, 0, "h", 1);
    assert!(matches!(r, Err(DexError::PoolNotFound)));
}
