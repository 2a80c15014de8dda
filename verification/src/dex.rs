//! The native exchange: constant-product pools (x * y = k) between RF and a
//! wrapped token, liquidity positions and swap records.

use vstd::prelude::*;
use vstd::arithmetic::div_mod::{lemma_fundamental_div_mod, lemma_div_is_ordered, lemma_multiply_divide_le};
use crate::strmap::{ascending_keys, lemma_ascending_keys, string_views, StrMap};
use crate::codec::{decimal, decimal_text, digit_char, lemma_decimal_injective};

verus! {

/// Account that receives swap fees.
pub const DEX_FEE_ADDRESS: &'static str = "RedFlag_DEX_FeePool_v1";

/// Swap fee in basis points (0.3%).
pub const SWAP_FEE_BPS: u64 = 30;

/// Smallest amount of each side accepted when adding liquidity.
pub const MIN_LIQUIDITY: u64 = 1_000;

/// A pool between RF (side A) and a wrapped token (side B).
pub struct LiquidityPool {
    /// `"RF_"` followed by the token's name.
    pub pool_id: String,
    pub token_b: String,
    pub reserve_rf: u64,
    pub reserve_b: u64,
    /// LP tokens in circulation.
    pub total_lp: u64,
    /// Price of one RF in token B, times 1_000_000.
    pub price_rf_in_b: u64,
    /// RF swapped into the pool over its life.
    pub volume_rf: u64,
    /// Fees charged by swaps, in the input token.
    pub fees_collected: u64,
    pub created_at: u64,
    pub updated_at: u64,
}

/// Fee charged on a swap input.
pub open spec fn swap_fee(amount_in: int) -> int {
    amount_in * SWAP_FEE_BPS / 10_000
}

/// Output of a constant-product swap of `amount_in` after the fee.
pub open spec fn swap_output(reserve_in: int, reserve_out: int, amount_in: int) -> int {
    let after_fee = amount_in - swap_fee(amount_in);
    reserve_out * after_fee / (reserve_in + after_fee)
}

/// A swap of `amount_in` against a pool with reserve `reserve_in` neither
/// overflows the fee computation nor divides by zero.
pub open spec fn swap_defined(reserve_in: int, amount_in: int) -> bool {
    &&& amount_in * SWAP_FEE_BPS <= u64::MAX
    &&& reserve_in + (amount_in - swap_fee(amount_in)) > 0
}

/// `r` is the integer square root of `n`.
pub open spec fn is_isqrt(n: int, r: int) -> bool {
    0 <= r && r * r <= n < (r + 1) * (r + 1)
}

/// Stored price for reserves `rf` and `b`; unchanged while the RF reserve is empty.
pub open spec fn price_for(rf: u64, b: u64, old_price: u64) -> u64 {
    if rf > 0 {
        (b as int * 1_000_000 / rf as int) as u64
    } else {
        old_price
    }
}

/// The integer square root, the largest `r` with `r * r <= n`.
pub open spec fn isqrt(n: nat) -> nat
    decreases n,
{
    if n == 0 {
        0
    } else {
        let r = isqrt((n - 1) as nat);
        if (r + 1) * (r + 1) <= n { r + 1 } else { r }
    }
}

/// `isqrt` meets the characterization of the integer square root.
pub proof fn lemma_isqrt(n: nat)
    ensures
        is_isqrt(n as int, isqrt(n) as int),
    decreases n,
{
    if n > 0 {
        lemma_isqrt((n - 1) as nat);
        let r = isqrt((n - 1) as nat);
        if (r + 1) * (r + 1) <= n {
            assert((r + 2) * (r + 2) > n) by (nonlinear_arith)
                requires (r + 1) * (r + 1) <= n, n - 1 < (r + 1) * (r + 1), r >= 0;
        }
    }
}

/// The integer square root is unique.
pub proof fn lemma_isqrt_unique(n: int, a: int, b: int)
    requires
        is_isqrt(n, a),
        is_isqrt(n, b),
    ensures
        a == b,
{
    if a < b {
        assert((a + 1) * (a + 1) <= b * b) by (nonlinear_arith)
            requires 0 <= a, a + 1 <= b;
    }
    if b < a {
        assert((b + 1) * (b + 1) <= a * a) by (nonlinear_arith)
            requires 0 <= b, b + 1 <= a;
    }
}

/// LP tokens that a deposit of `a_rf` and `a_b` earns in `p`: the integer
/// square root of the product for the first deposit, otherwise the smaller of
/// the proportional shares (cut to 64 bits).
pub open spec fn lp_for(p: LiquidityPool, a_rf: u64, a_b: u64) -> u64 {
    if p.total_lp == 0 {
        isqrt((a_rf * a_b) as nat) as u64
    } else {
        let from_rf = a_rf * p.total_lp / (p.reserve_rf as int);
        let from_b = a_b * p.total_lp / (p.reserve_b as int);
        (if from_rf <= from_b { from_rf } else { from_b }) as u64
    }
}

/// The first deposit into an empty pool earns the integer square root of
/// the product of the two amounts: `lp * lp <= amount_rf * amount_b <
/// (lp + 1) * (lp + 1)`.
pub proof fn lemma_first_deposit_lp(p: LiquidityPool, amount_rf: u64, amount_b: u64)
    requires
        p.total_lp == 0,
    ensures
        ({
            let lp = lp_for(p, amount_rf, amount_b);
            &&& lp * lp <= amount_rf * amount_b
            &&& amount_rf * amount_b < (lp + 1) * (lp + 1)
        }),
{
    let n = amount_rf * amount_b;
    assert(0 <= n < 0x1_0000_0000_0000_0000 * 0x1_0000_0000_0000_0000) by (nonlinear_arith)
        requires n == amount_rf * amount_b, 0 <= amount_rf <= u64::MAX, 0 <= amount_b <= u64::MAX;
    lemma_isqrt(n as nat);
    let r = isqrt(n as nat);
    assert(r < 0x1_0000_0000_0000_0000) by (nonlinear_arith)
        requires r * r <= n, n < 0x1_0000_0000_0000_0000 * 0x1_0000_0000_0000_0000, r >= 0;
    assert(lp_for(p, amount_rf, amount_b) == r);
}

/// `q` is the integer quotient of `n` by `d`.
proof fn lemma_floor_quotient(n: int, d: int, q: int)
    requires
        n >= 0,
        d > 0,
        q == n / d,
    ensures
        q * d <= n < (q + 1) * d,
{
    lemma_fundamental_div_mod(n, d);
    assert(q * d == d * q) by (nonlinear_arith);
    assert((q + 1) * d == d * q + d) by (nonlinear_arith);
}

/// The LP tokens a deposit into a funded pool earns never exceed either
/// proportional share of the LP supply: `lp / total_lp` is at most
/// `amount_rf / reserve_rf` and at most `amount_b / reserve_b`; and one more
/// token would exceed one of them (when that smaller share fits in 64 bits).
pub proof fn lemma_lp_proportional(p: LiquidityPool, amount_rf: u64, amount_b: u64)
    requires
        p.total_lp > 0,
        p.reserve_rf > 0,
        p.reserve_b > 0,
        amount_rf * p.total_lp < (u64::MAX + 1) * p.reserve_rf || amount_b * p.total_lp < (u64::MAX + 1) * p.reserve_b,
    ensures
        ({
            let lp = lp_for(p, amount_rf, amount_b);
            &&& lp * p.reserve_rf <= amount_rf * p.total_lp
            &&& lp * p.reserve_b <= amount_b * p.total_lp
            &&& (lp + 1) * p.reserve_rf > amount_rf * p.total_lp || (lp + 1) * p.reserve_b > amount_b * p.total_lp
        }),
{
    let nr = amount_rf * p.total_lp;
    let nb = amount_b * p.total_lp;
    let fr = nr / (p.reserve_rf as int);
    let fb = nb / (p.reserve_b as int);
    assert(nr >= 0 && nb >= 0) by (nonlinear_arith)
        requires nr == amount_rf * p.total_lp, nb == amount_b * p.total_lp, amount_rf >= 0, amount_b >= 0, p.total_lp >= 0;
    lemma_floor_quotient(nr, p.reserve_rf as int, fr);
    lemma_floor_quotient(nb, p.reserve_b as int, fb);
    let m = if fr <= fb { fr } else { fb };
    if fr <= fb {
        if fr > u64::MAX {
            assert((u64::MAX + 1) * p.reserve_rf <= fr * p.reserve_rf) by (nonlinear_arith)
                requires fr >= u64::MAX + 1, p.reserve_rf > 0;
            assert((u64::MAX + 1) * p.reserve_b <= fb * p.reserve_b) by (nonlinear_arith)
                requires fb >= u64::MAX + 1, p.reserve_b > 0;
        }
        assert(m * p.reserve_b <= fb * p.reserve_b) by (nonlinear_arith)
            requires m <= fb, p.reserve_b > 0, m >= 0;
    } else {
        if fb > u64::MAX {
            assert((u64::MAX + 1) * p.reserve_rf <= fr * p.reserve_rf) by (nonlinear_arith)
                requires fr >= u64::MAX + 1, p.reserve_rf > 0;
            assert((u64::MAX + 1) * p.reserve_b <= fb * p.reserve_b) by (nonlinear_arith)
                requires fb >= u64::MAX + 1, p.reserve_b > 0;
        }
        assert(m * p.reserve_rf <= fr * p.reserve_rf) by (nonlinear_arith)
            requires m <= fr, p.reserve_rf > 0, m >= 0;
    }
    assert(lp_for(p, amount_rf, amount_b) == m);
}

/// The stored price of one RF in token B, times 1_000_000, is the ratio of
/// the reserves, rounded down: `price * reserve_rf <= reserve_b * 10^6 <
/// (price + 1) * reserve_rf` (when that ratio fits in 64 bits). With no RF
/// in the pool the price is left as it was.
pub proof fn lemma_price_is_reserve_ratio(rf: u64, b: u64, old_price: u64)
    ensures
        rf == 0 ==> price_for(rf, b, old_price) == old_price,
        rf > 0 && b * 1_000_000 < (u64::MAX + 1) * rf ==> {
            let price = price_for(rf, b, old_price);
            &&& price * rf <= b * 1_000_000
            &&& b * 1_000_000 < (price + 1) * rf
        },
{
    if rf > 0 && b * 1_000_000 < (u64::MAX + 1) * rf {
        let n = b * 1_000_000;
        let q = n / (rf as int);
        lemma_floor_quotient(n, rf as int, q);
        if q > u64::MAX {
            assert((u64::MAX + 1) * rf <= q * rf) by (nonlinear_arith)
                requires q >= u64::MAX + 1, rf > 0;
        }
        assert(price_for(rf, b, old_price) == q);
    }
}

/// Computing LP tokens for `p` does not divide by zero.
pub open spec fn lp_defined(p: LiquidityPool) -> bool {
    p.total_lp > 0 ==> p.reserve_rf > 0 && p.reserve_b > 0
}

proof fn lemma_mul_fits(a: u64, b: u64)
    ensures
        0 <= (a as int) * (b as int) <= (u64::MAX as int) * (u64::MAX as int),
        (a as int) * (b as int) < u128::MAX,
{
    assert(0 <= (a as int) * (b as int) <= (u64::MAX as int) * (u64::MAX as int)) by (nonlinear_arith)
        requires a <= u64::MAX, b <= u64::MAX, a >= 0, b >= 0;
}

proof fn lemma_output_bound(reserve_in: int, reserve_out: int, a: int)
    requires
        0 <= reserve_in,
        0 <= reserve_out,
        0 <= a,
        reserve_in + a > 0,
    ensures
        0 <= reserve_out * a / (reserve_in + a) <= reserve_out,
{
    assert(reserve_out * a <= (reserve_in + a) * reserve_out) by (nonlinear_arith)
        requires 0 <= reserve_in, 0 <= reserve_out, 0 <= a;
    assert(0 <= reserve_out * a) by (nonlinear_arith)
        requires 0 <= reserve_out, 0 <= a;
    lemma_multiply_divide_le(reserve_out * a, reserve_in + a, reserve_out);
    lemma_div_is_ordered(0, reserve_out * a, reserve_in + a);
}

proof fn lemma_share_bound(r: int, lp: int, t: int)
    requires
        0 <= r,
        0 <= lp <= t,
        0 < t,
    ensures
        0 <= r * lp / t <= r,
{
    assert(r * lp <= t * r) by (nonlinear_arith)
        requires 0 <= r, lp <= t;
    assert(0 <= r * lp) by (nonlinear_arith)
        requires 0 <= r, 0 <= lp;
    lemma_multiply_divide_le(r * lp, t, r);
    lemma_div_is_ordered(0, r * lp, t);
}

proof fn lemma_share_left(r: int, lp: int, t: int)
    requires
        0 < r,
        0 <= lp < t,
    ensures
        r * lp / t < r,
{
    assert(r * lp < t * r) by (nonlinear_arith)
        requires 0 < r, lp < t;
    vstd::arithmetic::div_mod::lemma_multiply_divide_lt(r * lp, t, r);
}

proof fn lemma_fee_bound(amount_in: int)
    requires
        0 <= amount_in,
    ensures
        0 <= swap_fee(amount_in) <= amount_in,
{
    assert(amount_in * 30 <= amount_in * 10_000) by (nonlinear_arith)
        requires 0 <= amount_in;
    lemma_multiply_divide_le(amount_in * 30, 10_000, amount_in);
    lemma_div_is_ordered(0, amount_in * 30, 10_000);
}

/// A swap that the pool accepts never lowers the product of the reserves:
/// with input `a` and output `swap_output(ri, ro, a)`,
/// `(ri + a) * (ro - out) >= ri * ro`.
pub proof fn lemma_swap_keeps_k(ri: int, ro: int, a: int)
    requires
        0 <= ri,
        0 <= ro,
        0 <= a,
        ri + (a - swap_fee(a)) > 0,
    ensures
        (ri + a) * (ro - swap_output(ri, ro, a)) >= ri * ro,
{
    lemma_fee_bound(a);
    let af = a - swap_fee(a);
    let d = ri + af;
    let out = swap_output(ri, ro, a);
    lemma_fundamental_div_mod(ro * af, d);
    let m = (ro * af) % d;
    assert(0 <= m);
    // d * out <= ro * af, hence d * (ro - out) >= ro * d - ro * af = ro * ri
    assert(d * out <= ro * af);
    assert(d * (ro - out) >= ri * ro) by (nonlinear_arith)
        requires d * out <= ro * af, d == ri + af;
    lemma_output_bound(ri, ro, af);
    assert((ri + a) * (ro - out) >= d * (ro - out)) by (nonlinear_arith)
        requires ri + a >= d, ro - out >= 0;
}

impl LiquidityPool {
    /// Output and fee of swapping `amount_rf` RF for token B.
    pub fn calc_swap_rf_to_b(&self, amount_rf: u64) -> (r: (u64, u64))
        requires
            swap_defined(self.reserve_rf as int, amount_rf as int),
        ensures
            r.1 == swap_fee(amount_rf as int),
            r.0 == swap_output(self.reserve_rf as int, self.reserve_b as int, amount_rf as int),
            r.0 <= self.reserve_b,
    {
        let fee = amount_rf * SWAP_FEE_BPS / 10_000;
        proof {
            lemma_fee_bound(amount_rf as int);
            lemma_output_bound(self.reserve_rf as int, self.reserve_b as int, amount_rf - fee);
        }
        let amount_in_after_fee = amount_rf - fee;
        proof { lemma_mul_fits(self.reserve_b, amount_in_after_fee); }
        let amount_out = (self.reserve_b as u128 * amount_in_after_fee as u128
            / (self.reserve_rf as u128 + amount_in_after_fee as u128)) as u64;
        (amount_out, fee)
    }

    /// Output and fee of swapping `amount_b` of token B for RF.
    pub fn calc_swap_b_to_rf(&self, amount_b: u64) -> (r: (u64, u64))
        requires
            swap_defined(self.reserve_b as int, amount_b as int),
        ensures
            r.1 == swap_fee(amount_b as int),
            r.0 == swap_output(self.reserve_b as int, self.reserve_rf as int, amount_b as int),
            r.0 <= self.reserve_rf,
    {
        let fee = amount_b * SWAP_FEE_BPS / 10_000;
        proof {
            lemma_fee_bound(amount_b as int);
            lemma_output_bound(self.reserve_b as int, self.reserve_rf as int, amount_b - fee);
        }
        let amount_in_after_fee = amount_b - fee;
        proof { lemma_mul_fits(self.reserve_rf, amount_in_after_fee); }
        let amount_out = (self.reserve_rf as u128 * amount_in_after_fee as u128
            / (self.reserve_b as u128 + amount_in_after_fee as u128)) as u64;
        (amount_out, fee)
    }

    /// LP tokens earned by depositing `amount_rf` and `amount_b`: the square
    /// root of their product for the first deposit, otherwise the smaller of
    /// the two proportional shares of the LP supply.
    pub fn calc_lp_tokens(&self, amount_rf: u64, amount_b: u64) -> (lp: u64)
        requires
            lp_defined(*self),
        ensures
            lp == lp_for(*self, amount_rf, amount_b),
    {
        proof {
            lemma_mul_fits(amount_rf, amount_b);
            lemma_mul_fits(amount_rf, self.total_lp);
            lemma_mul_fits(amount_b, self.total_lp);
        }
        if self.total_lp == 0 {
            let product = amount_rf as u128 * amount_b as u128;
            assert(product < u128::MAX) by (nonlinear_arith)
                requires product == amount_rf * amount_b, amount_rf <= u64::MAX, amount_b <= u64::MAX;
            let r = integer_sqrt(product);
            proof {
                lemma_isqrt(product as nat);
                assert(isqrt(product as nat) < 0x1_0000_0000_0000_0000) by (nonlinear_arith)
                    requires isqrt(product as nat) * isqrt(product as nat) <= product, product < u128::MAX;
            }
            r
        } else {
            let lp_from_rf = amount_rf as u128 * self.total_lp as u128 / self.reserve_rf as u128;
            let lp_from_b = amount_b as u128 * self.total_lp as u128 / self.reserve_b as u128;
            #[verifier::truncate]
            let from_rf = lp_from_rf as u64;
            #[verifier::truncate]
            let from_b = lp_from_b as u64;
            if lp_from_rf <= lp_from_b { from_rf } else { from_b }
        }
    }

    /// Recomputes the stored price from the reserves and stamps the pool with `now`.
    pub fn update_price(&mut self, now: u64)
        ensures
            final(self).price_rf_in_b == price_for(old(self).reserve_rf, old(self).reserve_b, old(self).price_rf_in_b),
            final(self).updated_at == now,
            final(self).pool_id == old(self).pool_id,
            final(self).token_b == old(self).token_b,
            final(self).reserve_rf == old(self).reserve_rf,
            final(self).reserve_b == old(self).reserve_b,
            final(self).total_lp == old(self).total_lp,
            final(self).volume_rf == old(self).volume_rf,
            final(self).fees_collected == old(self).fees_collected,
            final(self).created_at == old(self).created_at,
    {
        if self.reserve_rf > 0 {
            self.price_rf_in_b = (self.reserve_b as u128 * 1_000_000 / self.reserve_rf as u128) as u64;
        }
        self.updated_at = now;
    }
}

proof fn lemma_newton_step(n: int, x: int)
    requires
        n >= 1,
        x >= 1,
    ensures
        ((x + n / x) / 2 + 1) * ((x + n / x) / 2 + 1) > n,
        (x + n / x) / 2 >= 1,
        x * x > n ==> (x + n / x) / 2 < x,
{
    let q = n / x;
    lemma_fundamental_div_mod(n, x);
    let r = n % x;
    assert(0 <= r < x);
    assert(n == x * q + r);
    assert(q >= 0) by (nonlinear_arith)
        requires n == x * q + r, n >= 1, x >= 1, r < x;
    let y = (x + q) / 2;
    assert(2 * y + 2 >= x + q + 1);
    assert((x + q + 1) * (x + q + 1) >= 4 * x * (q + 1)) by (nonlinear_arith)
        requires x >= 1, q >= 0;
    assert(x * (q + 1) > n) by (nonlinear_arith)
        requires n == x * q + r, r < x;
    assert((2 * y + 2) * (2 * y + 2) >= (x + q + 1) * (x + q + 1)) by (nonlinear_arith)
        requires 2 * y + 2 >= x + q + 1, x + q + 1 >= 0;
    assert((y + 1) * (y + 1) > n) by (nonlinear_arith)
        requires (2 * y + 2) * (2 * y + 2) >= (x + q + 1) * (x + q + 1),
            (x + q + 1) * (x + q + 1) >= 4 * x * (q + 1),
            x * (q + 1) > n;
    if x == 1 {
        assert(q == n);
    } else {
        assert(x + q >= 2);
    }
    if x * x > n {
        assert(q < x) by (nonlinear_arith)
            requires x * x > n, n == x * q + r, r >= 0, x >= 1;
    }
}

proof fn lemma_newton_no_overflow(n: int, x: int)
    requires
        1 <= x <= n,
    ensures
        x + n / x <= n + 1,
        n / x <= n,
{
    lemma_fundamental_div_mod(n, x);
    let q = n / x;
    assert(q >= 1) by (nonlinear_arith)
        requires n == x * q + n % x, 0 <= n % x < x, x <= n;
    assert(x * q <= n);
    assert((x - 1) * (q - 1) >= 0) by (nonlinear_arith)
        requires x >= 1, q >= 1;
    assert(x + q <= x * q + 1) by (nonlinear_arith)
        requires (x - 1) * (q - 1) >= 0;
    assert(q <= x * q) by (nonlinear_arith)
        requires x >= 1, q >= 1;
}

/// Integer square root by Newton's iteration.
pub fn integer_sqrt(n: u128) -> (r: u64)
    requires
        n < u128::MAX,
    ensures
        is_isqrt(n as int, r as int),
        r == isqrt(n as nat),
{
    proof {
        lemma_isqrt(n as nat);
    }
    if n == 0 {
        assert(is_isqrt(0, 0));
        return 0;
    }
    let mut x = n;
    let mut y = (x + 1) / 2;
    proof {
        lemma_newton_step(n as int, n as int);
        assert((n + 1) * (n + 1) > n) by (nonlinear_arith) requires n >= 1;
        assert((n + n / n) / 2 == (n + 1) / 2) by {
            vstd::arithmetic::div_mod::lemma_div_by_self(n as int);
        }
    }
    while y < x
        invariant
            n < u128::MAX,
            1 <= y,
            1 <= x <= n,
            (y + 1) * (y + 1) > n,
            (x + 1) * (x + 1) > n,
            x * x > n ==> y < x,
        decreases x,
    {
        x = y;
        proof {
            lemma_newton_no_overflow(n as int, x as int);
            lemma_newton_step(n as int, x as int);
            assert(x + n / x <= n + 1);
        }
        y = (x + n / x) / 2;
    }
    proof {
        assert(x * x <= n);
        assert(x < 0x1_0000_0000_0000_0000) by (nonlinear_arith)
            requires x * x <= n, n < u128::MAX, x >= 1;
        lemma_isqrt_unique(n as int, x as int, isqrt(n as nat) as int);
    }
    x as u64
}


impl Clone for LiquidityPool {
    fn clone(&self) -> (r: Self)
        ensures
            r == *self,
    {
        LiquidityPool {
            pool_id: self.pool_id.clone(),
            token_b: self.token_b.clone(),
            reserve_rf: self.reserve_rf,
            reserve_b: self.reserve_b,
            total_lp: self.total_lp,
            price_rf_in_b: self.price_rf_in_b,
            volume_rf: self.volume_rf,
            fees_collected: self.fees_collected,
            created_at: self.created_at,
            updated_at: self.updated_at,
        }
    }
}

/// A provider's share of a pool.
pub struct LpPosition {
    pub provider: String,
    pub pool_id: String,
    pub lp_tokens: u64,
    pub added_at: u64,
}

impl Clone for LpPosition {
    fn clone(&self) -> (r: Self)
        ensures
            r == *self,
    {
        LpPosition {
            provider: self.provider.clone(),
            pool_id: self.pool_id.clone(),
            lp_tokens: self.lp_tokens,
            added_at: self.added_at,
        }
    }
}

#[derive(Clone, Copy, Debug, PartialEq, Eq, Structural)]
pub enum SwapDirection {
    RfToB,
    BToRf,
}

/// A swap that went through.
pub struct SwapRecord {
    pub pool_id: String,
    pub direction: SwapDirection,
    pub amount_in: u64,
    pub amount_out: u64,
    pub fee: u64,
    pub trader: String,
    pub timestamp: u64,
    pub tx_hash: String,
}

impl Clone for SwapRecord {
    fn clone(&self) -> (r: Self)
        ensures
            r == *self,
    {
        SwapRecord {
            pool_id: self.pool_id.clone(),
            direction: self.direction,
            amount_in: self.amount_in,
            amount_out: self.amount_out,
            fee: self.fee,
            trader: self.trader.clone(),
            timestamp: self.timestamp,
            tx_hash: self.tx_hash.clone(),
        }
    }
}

/// A stored price of a pool at a moment.
pub struct PricePoint {
    pub pool_id: String,
    pub timestamp: u64,
    pub price: u64,
}

/// Why the exchange refused an operation.
#[derive(Clone, Copy, Debug, PartialEq, Eq, Structural)]
pub enum DexError {
    PoolExists,
    PoolNotFound,
    BelowMinimumLiquidity,
    ZeroLpTokens,
    ReserveRfOverflow,
    ReserveBOverflow,
    TotalLpOverflow,
    NoPosition,
    InsufficientLpTokens,
    EmptyLpSupply,
    EmptyPool,
    ZeroAmount,
    ZeroOutput,
    SlippageExceeded,
    InsufficientLiquidity,
    KInvariantViolated,
}

/// The text of a refusal.
pub open spec fn dex_error_text(e: DexError) -> Seq<char> {
    match e {
        DexError::PoolExists => "Pool ya existe"@,
        DexError::PoolNotFound => "Pool no existe"@,
        DexError::BelowMinimumLiquidity => "Liquidez por debajo del minimo"@,
        DexError::ZeroLpTokens => "LP tokens calculados = 0"@,
        DexError::ReserveRfOverflow => "Overflow en reserve_rf"@,
        DexError::ReserveBOverflow => "Overflow en reserve_b"@,
        DexError::TotalLpOverflow => "Overflow en total_lp"@,
        DexError::NoPosition => "No tienes posicion en este pool"@,
        DexError::InsufficientLpTokens => "LP tokens insuficientes"@,
        DexError::EmptyLpSupply => "Pool vacío — total_lp es 0"@,
        DexError::EmptyPool => "Pool sin liquidez"@,
        DexError::ZeroAmount => "amount_in no puede ser 0"@,
        DexError::ZeroOutput => "Swap produce 0 tokens de salida"@,
        DexError::SlippageExceeded => "Slippage excedido"@,
        DexError::InsufficientLiquidity => "Liquidez insuficiente en el pool"@,
        DexError::KInvariantViolated => "Violacion del invariante k"@,
    }
}

impl DexError {
    /// Human-readable text of the refusal.
    pub fn message(&self) -> (s: &'static str)
        ensures
            s@ == dex_error_text(*self),
    {
        match self {
            DexError::PoolExists => "Pool ya existe",
            DexError::PoolNotFound => "Pool no existe",
            DexError::BelowMinimumLiquidity => "Liquidez por debajo del minimo",
            DexError::ZeroLpTokens => "LP tokens calculados = 0",
            DexError::ReserveRfOverflow => "Overflow en reserve_rf",
            DexError::ReserveBOverflow => "Overflow en reserve_b",
            DexError::TotalLpOverflow => "Overflow en total_lp",
            DexError::NoPosition => "No tienes posicion en este pool",
            DexError::InsufficientLpTokens => "LP tokens insuficientes",
            DexError::EmptyLpSupply => "Pool vacío — total_lp es 0",
            DexError::EmptyPool => "Pool sin liquidez",
            DexError::ZeroAmount => "amount_in no puede ser 0",
            DexError::ZeroOutput => "Swap produce 0 tokens de salida",
            DexError::SlippageExceeded => "Slippage excedido",
            DexError::InsufficientLiquidity => "Liquidez insuficiente en el pool",
            DexError::KInvariantViolated => "Violacion del invariante k",
        }
    }
}

/// The tokens paired with RF on the exchange, one pool each.
pub const PAIR_TOKENS: [&'static str; 9] = ["wETH", "wBNB", "wMATIC", "wSOL", "wAVAX", "wARB", "wBTC", "wUSDC", "wUSDT"];

/// Identifiers of the pools of the first `k` tokens of `PAIR_TOKENS`.
pub open spec fn listed_pool_ids(k: int) -> Set<Seq<char>> {
    Set::new(|id: Seq<char>| exists|j: int| 0 <= j < k && id == pool_id_for(#[trigger] PAIR_TOKENS[j]@))
}

/// Identifier of the pool for `token_b`.
pub open spec fn pool_id_for(token_b: Seq<char>) -> Seq<char> {
    "RF_"@ + token_b
}

/// Key of a provider's position in a pool: the pool identifier's length in
/// decimal, `:`, the pool identifier, then the provider. No two
/// (provider, pool) pairs share a key (`lemma_position_key_injective`).
pub open spec fn position_key(provider: Seq<char>, pool_id: Seq<char>) -> Seq<char> {
    decimal(pool_id.len()) + ":"@ + pool_id + provider
}

/// Decimal text holds no `:`.
proof fn lemma_decimal_digits(n: nat)
    ensures
        forall|i: int| 0 <= i < decimal(n).len() ==> #[trigger] decimal(n)[i] != ':',
    decreases n,
{
    let d = decimal(n);
    if n >= 10 {
        lemma_decimal_digits(n / 10);
        let last = digit_char((n % 10) as nat);
        assert(d == decimal(n / 10).push(last));
        assert(last != ':');
        assert forall|i: int| 0 <= i < d.len() implies #[trigger] d[i] != ':' by {
            if i < d.len() - 1 {
                assert(d[i] == decimal(n / 10)[i]);
            }
        }
    } else {
        assert(d == seq![digit_char(n)]);
        assert(digit_char(n) != ':');
    }
}

/// Different (provider, pool) pairs have different position keys.
pub proof fn lemma_position_key_injective(a: Seq<char>, pa: Seq<char>, b: Seq<char>, pb: Seq<char>)
    requires
        position_key(a, pa) == position_key(b, pb),
    ensures
        a == b,
        pa == pb,
{
    reveal_strlit(":");
    let da = decimal(pa.len());
    let db = decimal(pb.len());
    let k = position_key(a, pa);
    lemma_decimal_digits(pa.len());
    lemma_decimal_digits(pb.len());
    assert(k == da + ":"@ + pa + a);
    assert(k == db + ":"@ + pb + b);
    if da.len() < db.len() {
        assert(k[da.len() as int] == ':');
        assert(k[da.len() as int] == db[da.len() as int]);
    }
    if db.len() < da.len() {
        assert(k[db.len() as int] == ':');
        assert(k[db.len() as int] == da[db.len() as int]);
    }
    assert(da.len() == db.len());
    assert(da =~= k.subrange(0, da.len() as int));
    assert(db =~= k.subrange(0, db.len() as int));
    lemma_decimal_injective(pa.len(), pb.len());
    let start: int = da.len() + 1int;
    assert(pa =~= k.subrange(start, start + pa.len()));
    assert(pb =~= k.subrange(start, start + pb.len()));
    assert(a =~= k.subrange(start + pa.len(), k.len() as int));
    assert(b =~= k.subrange(start + pb.len(), k.len() as int));
}

/// The position key of `provider` in `pool_id`.
fn position_key_text(provider: &str, pool_id: &str) -> (k: String)
    ensures
        k@ == position_key(provider@, pool_id@),
{
    let n = pool_id.unicode_len();
    let mut key = decimal_text(n as u64);
    key.append(":");
    key.append(pool_id);
    key.append(provider);
    key
}

/// LP tokens of pool `pool` held by a position.
pub open spec fn lp_share(pos: LpPosition, pool: Seq<char>) -> int {
    if pos.pool_id@ == pool { pos.lp_tokens as int } else { 0 }
}

/// LP tokens of pool `pool` held by all positions of `ps`.
pub open spec fn lp_held(ps: Seq<LpPosition>, pool: Seq<char>) -> int
    decreases ps.len(),
{
    if ps.len() == 0 {
        0
    } else {
        lp_held(ps.drop_last(), pool) + lp_share(ps.last(), pool)
    }
}

proof fn lemma_lp_held_push(ps: Seq<LpPosition>, x: LpPosition, pool: Seq<char>)
    ensures
        lp_held(ps.push(x), pool) == lp_held(ps, pool) + lp_share(x, pool),
{
    assert(ps.push(x).drop_last() =~= ps);
}

proof fn lemma_lp_held_update(ps: Seq<LpPosition>, i: int, x: LpPosition, pool: Seq<char>)
    requires
        0 <= i < ps.len(),
    ensures
        lp_held(ps.update(i, x), pool) == lp_held(ps, pool) - lp_share(ps[i], pool) + lp_share(x, pool),
    decreases ps.len(),
{
    let u = ps.update(i, x);
    if i == ps.len() - 1 {
        assert(u.drop_last() =~= ps.drop_last());
    } else {
        lemma_lp_held_update(ps.drop_last(), i, x, pool);
        assert(u.drop_last() =~= ps.drop_last().update(i, x));
    }
}

proof fn lemma_lp_held_bound(ps: Seq<LpPosition>, i: int, pool: Seq<char>)
    requires
        0 <= i < ps.len(),
    ensures
        0 <= lp_share(ps[i], pool) <= lp_held(ps, pool),
    decreases ps.len(),
{
    lemma_lp_held_nonneg(ps.drop_last(), pool);
    if i < ps.len() - 1 {
        lemma_lp_held_bound(ps.drop_last(), i, pool);
    }
}

proof fn lemma_lp_held_nonneg(ps: Seq<LpPosition>, pool: Seq<char>)
    ensures
        lp_held(ps, pool) >= 0,
    decreases ps.len(),
{
    if ps.len() > 0 {
        lemma_lp_held_nonneg(ps.drop_last(), pool);
    }
}

proof fn lemma_lp_held_none(ps: Seq<LpPosition>, pool: Seq<char>)
    requires
        forall|i: int| 0 <= i < ps.len() ==> (#[trigger] ps[i]).pool_id@ != pool,
    ensures
        lp_held(ps, pool) == 0,
    decreases ps.len(),
{
    if ps.len() > 0 {
        lemma_lp_held_none(ps.drop_last(), pool);
    }
}

/// Swaps of `pool`, newest first.
pub open spec fn swaps_newest_first(s: Seq<SwapRecord>, pool: Seq<char>) -> Seq<SwapRecord>
    decreases s.len(),
{
    if s.len() == 0 {
        Seq::empty()
    } else {
        (if s.last().pool_id@ == pool { seq![s.last()] } else { Seq::empty() })
            + swaps_newest_first(s.drop_last(), pool)
    }
}

/// Stored prices of `pool` as (timestamp, price), newest first.
pub open spec fn prices_newest_first(s: Seq<PricePoint>, pool: Seq<char>) -> Seq<(u64, u64)>
    decreases s.len(),
{
    if s.len() == 0 {
        Seq::empty()
    } else {
        (if s.last().pool_id@ == pool { seq![(s.last().timestamp, s.last().price)] } else { Seq::empty() })
            + prices_newest_first(s.drop_last(), pool)
    }
}

proof fn lemma_swaps_split(s: Seq<SwapRecord>, i: int, pool: Seq<char>)
    requires
        0 <= i <= s.len(),
    ensures
        swaps_newest_first(s, pool) == swaps_newest_first(s.subrange(i, s.len() as int), pool)
            + swaps_newest_first(s.subrange(0, i), pool),
    decreases s.len(),
{
    if i == s.len() {
        assert(s.subrange(i, s.len() as int) =~= Seq::<SwapRecord>::empty());
        assert(s.subrange(0, i) =~= s);
        assert(swaps_newest_first(s, pool) =~= Seq::<SwapRecord>::empty() + swaps_newest_first(s, pool));
    } else {
        lemma_swaps_split(s.drop_last(), i, pool);
        assert(s.drop_last().subrange(0, i) =~= s.subrange(0, i));
        let t = s.subrange(i, s.len() as int);
        assert(t.drop_last() =~= s.drop_last().subrange(i, s.len() - 1));
        assert(t.last() == s.last());
        assert(swaps_newest_first(s, pool) =~= swaps_newest_first(t, pool) + swaps_newest_first(s.subrange(0, i), pool));
    }
}

proof fn lemma_prices_split(s: Seq<PricePoint>, i: int, pool: Seq<char>)
    requires
        0 <= i <= s.len(),
    ensures
        prices_newest_first(s, pool) == prices_newest_first(s.subrange(i, s.len() as int), pool)
            + prices_newest_first(s.subrange(0, i), pool),
    decreases s.len(),
{
    if i == s.len() {
        assert(s.subrange(i, s.len() as int) =~= Seq::<PricePoint>::empty());
        assert(s.subrange(0, i) =~= s);
        assert(prices_newest_first(s, pool) =~= Seq::<(u64, u64)>::empty() + prices_newest_first(s, pool));
    } else {
        lemma_prices_split(s.drop_last(), i, pool);
        assert(s.drop_last().subrange(0, i) =~= s.subrange(0, i));
        let t = s.subrange(i, s.len() as int);
        assert(t.drop_last() =~= s.drop_last().subrange(i, s.len() - 1));
        assert(t.last() == s.last());
        assert(prices_newest_first(s, pool) =~= prices_newest_first(t, pool) + prices_newest_first(s.subrange(0, i), pool));
    }
}

/// The pools, liquidity positions and histories of the exchange.
pub struct DexState {
    pools: StrMap<LiquidityPool>,
    positions: StrMap<LpPosition>,
    swap_history: Vec<SwapRecord>,
    price_history: Vec<PricePoint>,
}

/// A pool after a deposit of `a_rf` and `a_b` that earned `lp`, at time `now`.
pub open spec fn pool_after_deposit(p: LiquidityPool, a_rf: u64, a_b: u64, lp: u64, now: u64) -> LiquidityPool {
    let rf = (p.reserve_rf + a_rf) as u64;
    let b = (p.reserve_b + a_b) as u64;
    LiquidityPool {
        pool_id: p.pool_id,
        token_b: p.token_b,
        reserve_rf: rf,
        reserve_b: b,
        total_lp: (p.total_lp + lp) as u64,
        price_rf_in_b: price_for(rf, b, p.price_rf_in_b),
        volume_rf: p.volume_rf,
        fees_collected: p.fees_collected,
        created_at: p.created_at,
        updated_at: now,
    }
}

/// A pool after `lp` LP tokens were burned for `out_rf` and `out_b`.
pub open spec fn pool_after_withdrawal(p: LiquidityPool, lp: u64, out_rf: u64, out_b: u64, now: u64) -> LiquidityPool {
    let rf = (p.reserve_rf - out_rf) as u64;
    let b = (p.reserve_b - out_b) as u64;
    LiquidityPool {
        pool_id: p.pool_id,
        token_b: p.token_b,
        reserve_rf: rf,
        reserve_b: b,
        total_lp: (p.total_lp - lp) as u64,
        price_rf_in_b: price_for(rf, b, p.price_rf_in_b),
        volume_rf: p.volume_rf,
        fees_collected: p.fees_collected,
        created_at: p.created_at,
        updated_at: now,
    }
}

/// A pool after a swap that moved its reserves to `rf` and `b`.
pub open spec fn pool_after_swap(p: LiquidityPool, rf: u64, b: u64, volume: u64, fee: u64, now: u64) -> LiquidityPool {
    LiquidityPool {
        pool_id: p.pool_id,
        token_b: p.token_b,
        reserve_rf: rf,
        reserve_b: b,
        total_lp: p.total_lp,
        price_rf_in_b: price_for(rf, b, p.price_rf_in_b),
        volume_rf: (p.volume_rf + volume) as u64,
        fees_collected: (p.fees_collected + fee) as u64,
        created_at: p.created_at,
        updated_at: now,
    }
}

impl DexState {
    pub closed spec fn pools(self) -> Map<Seq<char>, LiquidityPool> {
        self.pools@
    }

    pub closed spec fn positions(self) -> Map<Seq<char>, LpPosition> {
        self.positions@
    }

    /// Pool identifiers in ascending text order.
    pub open spec fn pool_order(self) -> Seq<Seq<char>> {
        ascending_keys(self.pools().dom())
    }

    /// The positions, in the order of creation.
    pub closed spec fn position_values(self) -> Seq<LpPosition> {
        self.positions.value_seq()
    }

    pub closed spec fn swaps(self) -> Seq<SwapRecord> {
        self.swap_history@
    }

    pub closed spec fn prices(self) -> Seq<PricePoint> {
        self.price_history@
    }

    /// Each pool is stored under its own identifier and can price deposits;
    /// each position is stored under its key, belongs to an existing pool and
    /// holds no more LP tokens than that pool has issued.
    pub closed spec fn wf(self) -> bool {
        &&& self.pools.wf()
        &&& self.positions.wf()
        &&& forall|k: Seq<char>| #[trigger] self.pools@.contains_key(k) ==> {
            &&& self.pools@[k].pool_id@ == k
            &&& lp_defined(self.pools@[k])
        }
        &&& forall|k: Seq<char>| #[trigger] self.positions@.contains_key(k) ==> {
            let pos = self.positions@[k];
            &&& k == position_key(pos.provider@, pos.pool_id@)
            &&& self.pools@.contains_key(pos.pool_id@)
        }
        &&& forall|k: Seq<char>| #[trigger] self.pools@.contains_key(k) ==>
            lp_held(self.positions.value_seq(), k) == self.pools@[k].total_lp
    }

    /// The LP supply of every pool is what its positions hold.
    pub proof fn lemma_lp_supply(self, pool: Seq<char>)
        requires
            self.wf(),
            self.pools().contains_key(pool),
        ensures
            lp_held(self.position_values(), pool) == self.pools()[pool].total_lp,
    {
    }

    proof fn lemma_position_bound(self, k: Seq<char>)
        requires
            self.wf(),
            self.positions@.contains_key(k),
        ensures
            self.pools@.contains_key(self.positions@[k].pool_id@),
            self.positions@[k].lp_tokens <= self.pools@[self.positions@[k].pool_id@].total_lp,
    {
        self.positions.lemma_index_of(k);
        let i = self.positions.index_of(k);
        lemma_lp_held_bound(self.positions.value_seq(), i, self.positions@[k].pool_id@);
    }

    /// The LP supply of `pool` is what the positions in it hold.
    pub closed spec fn lp_supply_matches(self, pool: LiquidityPool) -> bool {
        lp_held(self.positions.value_seq(), pool.pool_id@) == pool.total_lp
    }

    /// LP tokens that `provider` holds in `pool_id` (0 without a position).
    pub open spec fn lp_of(self, provider: Seq<char>, pool_id: Seq<char>) -> u64 {
        let k = position_key(provider, pool_id);
        if self.positions().contains_key(k) { self.positions()[k].lp_tokens } else { 0 }
    }

    /// An exchange with no pools.
    pub fn new() -> (d: Self)
        ensures
            d.wf(),
            d.pools() == Map::<Seq<char>, LiquidityPool>::empty(),
            d.positions() == Map::<Seq<char>, LpPosition>::empty(),
            d.pool_order() == Seq::<Seq<char>>::empty(),
            d.swaps() == Seq::<SwapRecord>::empty(),
            d.prices() == Seq::<PricePoint>::empty(),
    {
        let d = DexState { pools: StrMap::new(), positions: StrMap::new(), swap_history: Vec::new(), price_history: Vec::new() };
        proof {
            let e = Seq::<Seq<char>>::empty();
            lemma_ascending_keys(e);
            assert(e.to_set() =~= d.pools().dom());
        }
        d
    }

    /// The pool with identifier `pool_id`.
    pub fn get_pool(&self, pool_id: &str) -> (r: Option<LiquidityPool>)
        requires
            self.wf(),
        ensures
            r is Some <==> self.pools().contains_key(pool_id@),
            r matches Some(p) ==> p == self.pools()[pool_id@],
    {
        match self.pools.get(pool_id) {
            Some(p) => Some(p.clone()),
            None => None,
        }
    }

    /// Stores `pool` under its identifier.
    pub fn save_pool(&mut self, pool: LiquidityPool)
        requires
            old(self).wf(),
            lp_defined(pool),
            old(self).lp_supply_matches(pool),
        ensures
            final(self).wf(),
            final(self).pools() == old(self).pools().insert(pool.pool_id@, pool),
            final(self).positions() == old(self).positions(),
            final(self).swaps() == old(self).swaps(),
            final(self).prices() == old(self).prices(),
            old(self).pools().contains_key(pool.pool_id@) ==> final(self).pool_order() == old(self).pool_order(),
    {
        let ghost pid = pool.pool_id@;
        let key = pool.pool_id.clone();
        self.pools.insert(key, pool);
        proof {
            if old(self).pools().contains_key(pid) {
                assert(self.pools().dom() =~= old(self).pools().dom());
            }
        }
    }

    /// All pools, in ascending order of identifier.
    pub fn list_pools(&self) -> (v: Vec<LiquidityPool>)
        requires
            self.wf(),
        ensures
            v@.len() == self.pool_order().len(),
            forall|i: int| 0 <= i < v@.len() ==> #[trigger] v@[i] == self.pools()[self.pool_order()[i]],
    {
        let keys = self.pools.sorted_keys();
        let ghost order = self.pool_order();
        let n = keys.len();
        let mut v: Vec<LiquidityPool> = Vec::new();
        let mut i: usize = 0;
        proof {
            assert forall|j: int| 0 <= j < n implies self.pools@.contains_key(#[trigger] order[j]) by {
                assert(string_views(keys@)[j] == order[j]);
                assert(string_views(keys@).to_set().contains(order[j]));
            }
        }
        while i < n
            invariant
                self.wf(),
                order == self.pool_order(),
                string_views(keys@) == order,
                n == keys@.len(),
                i <= n,
                v@.len() == i,
                forall|j: int| 0 <= j < n ==> self.pools@.contains_key(#[trigger] order[j]),
                forall|j: int| 0 <= j < i ==> #[trigger] v@[j] == self.pools()[order[j]],
            decreases n - i,
        {
            assert(keys@[i as int]@ == order[i as int]);
            let p = match self.pools.get(keys[i].as_str()) {
                Some(p) => p.clone(),
                None => {
                    proof { assert(false); }
                    return v;
                },
            };
            v.push(p);
            i = i + 1;
        }
        v
    }

    /// Opens the pool `RF_<token_b>` with empty reserves; refused when it exists.
    pub fn create_pool(&mut self, token_b: &str, now: u64) -> (r: Result<LiquidityPool, DexError>)
        requires
            old(self).wf(),
        ensures
            final(self).wf(),
            final(self).positions() == old(self).positions(),
            final(self).swaps() == old(self).swaps(),
            final(self).prices() == old(self).prices(),
            match r {
                Ok(p) => {
                    &&& !old(self).pools().contains_key(pool_id_for(token_b@))
                    &&& p.pool_id@ == pool_id_for(token_b@)
                    &&& p.token_b@ == token_b@
                    &&& p.reserve_rf == 0 && p.reserve_b == 0 && p.total_lp == 0
                    &&& p.price_rf_in_b == 0 && p.volume_rf == 0 && p.fees_collected == 0
                    &&& p.created_at == now && p.updated_at == now
                    &&& final(self).pools() == old(self).pools().insert(p.pool_id@, p)
                },
                Err(e) => {
                    &&& e == DexError::PoolExists
                    &&& old(self).pools().contains_key(pool_id_for(token_b@))
                    &&& final(self).pools() == old(self).pools()
                    &&& final(self).pool_order() == old(self).pool_order()
                },
            },
    {
        let mut pool_id = "RF_".to_owned();
        pool_id.append(token_b);
        if self.pools.contains_key(pool_id.as_str()) {
            return Err(DexError::PoolExists);
        }
        let pool = LiquidityPool {
            pool_id: pool_id.clone(),
            token_b: token_b.to_owned(),
            reserve_rf: 0,
            reserve_b: 0,
            total_lp: 0,
            price_rf_in_b: 0,
            volume_rf: 0,
            fees_collected: 0,
            created_at: now,
            updated_at: now,
        };
        let saved = pool.clone();
        proof {
            let vs = self.positions.value_seq();
            self.positions.lemma_values();
            assert forall|i: int| 0 <= i < vs.len() implies (#[trigger] vs[i]).pool_id@ != pool_id@ by {
                let k = self.positions.key_seq()[i];
                assert(self.positions@.contains_key(k));
            }
            lemma_lp_held_none(vs, pool_id@);
        }
        self.pools.insert(pool_id, saved);
        Ok(pool)
    }

    /// What `add_liquidity(pool_id, provider, amount_rf, amount_b, now)`
    /// does: `self` is the exchange after it, `old` before it, `r` its answer.
    pub open spec fn add_liquidity_outcome(self, old: DexState, pool_id: Seq<char>, provider: Seq<char>, amount_rf: u64, amount_b: u64, now: u64, r: Result<u64, DexError>) -> bool {
        &&& self.wf()
        &&& self.pool_order() == old.pool_order()
        &&& self.swaps() == old.swaps()
        &&& self.prices() == old.prices()
        &&& r is Err ==> self.pools() == old.pools() && self.positions() == old.positions()
        &&& ({
                let found = old.pools().contains_key(pool_id);
                let p = old.pools()[pool_id];
                let lp = lp_for(p, amount_rf, amount_b);
                let small = amount_rf < MIN_LIQUIDITY || amount_b < MIN_LIQUIDITY;
                let rf_fits = p.reserve_rf + amount_rf <= u64::MAX;
                let b_fits = p.reserve_b + amount_b <= u64::MAX;
                let lp_fits = p.total_lp + lp <= u64::MAX;
                match r {
                    Err(DexError::PoolNotFound) => !found,
                    Err(DexError::BelowMinimumLiquidity) => found && small,
                    Err(DexError::ZeroLpTokens) => found && !small && lp == 0,
                    Err(DexError::ReserveRfOverflow) => found && !small && lp > 0 && !rf_fits,
                    Err(DexError::ReserveBOverflow) => found && !small && lp > 0 && rf_fits && !b_fits,
                    Err(DexError::TotalLpOverflow) => found && !small && lp > 0 && rf_fits && b_fits && !lp_fits,
                    Err(_) => false,
                    Ok(v) => {
                        let k = position_key(provider, pool_id);
                        let np = self.positions()[k];
                        &&& found && !small && rf_fits && b_fits && lp_fits
                        &&& v == lp && v > 0
                        &&& self.pools() == old.pools().insert(pool_id, pool_after_deposit(p, amount_rf, amount_b, lp, now))
                        &&& self.positions() == old.positions().insert(k, np)
                        &&& np.provider@ == provider
                        &&& np.pool_id@ == pool_id
                        &&& np.lp_tokens == old.lp_of(provider, pool_id) + lp
                        &&& np.added_at == if old.positions().contains_key(k) { old.positions()[k].added_at } else { now }
                    },
                }
            })
    }

    /// Deposits `amount_rf` RF and `amount_b` of token B into `pool_id` for
    /// `provider` and credits the earned LP tokens to the provider's position.
    pub fn add_liquidity(&mut self, pool_id: &str, provider: &str, amount_rf: u64, amount_b: u64, now: u64) -> (r: Result<u64, DexError>)
        requires
            old(self).wf(),
        ensures
            final(self).add_liquidity_outcome(*old(self), pool_id@, provider@, amount_rf, amount_b, now, r),
    {
        let pool_ref = match self.pools.get(pool_id) {
            Some(p) => p,
            None => return Err(DexError::PoolNotFound),
        };
        if amount_rf < MIN_LIQUIDITY || amount_b < MIN_LIQUIDITY {
            return Err(DexError::BelowMinimumLiquidity);
        }
        let lp_tokens = pool_ref.calc_lp_tokens(amount_rf, amount_b);
        if lp_tokens == 0 {
            return Err(DexError::ZeroLpTokens);
        }
        let new_rf = match pool_ref.reserve_rf.checked_add(amount_rf) {
            Some(v) => v,
            None => return Err(DexError::ReserveRfOverflow),
        };
        let new_b = match pool_ref.reserve_b.checked_add(amount_b) {
            Some(v) => v,
            None => return Err(DexError::ReserveBOverflow),
        };
        let new_total = match pool_ref.total_lp.checked_add(lp_tokens) {
            Some(v) => v,
            None => return Err(DexError::TotalLpOverflow),
        };
        let mut pool = pool_ref.clone();
        pool.reserve_rf = new_rf;
        pool.reserve_b = new_b;
        pool.total_lp = new_total;
        pool.update_price(now);

        let mut key = position_key_text(provider, pool_id);
        let ghost k = key@;
        let ghost old_vals = self.positions.value_seq();
        let pos = match self.positions.get(key.as_str()) {
            Some(existing) => {
                proof {
                    self.lemma_position_bound(k);
                    lemma_position_key_injective(existing.provider@, existing.pool_id@, provider@, pool_id@);
                }
                LpPosition {
                    provider: existing.provider.clone(),
                    pool_id: existing.pool_id.clone(),
                    lp_tokens: existing.lp_tokens + lp_tokens,
                    added_at: existing.added_at,
                }
            },
            None => LpPosition {
                provider: provider.to_owned(),
                pool_id: pool_id.to_owned(),
                lp_tokens: lp_tokens,
                added_at: now,
            },
        };
        let ghost np = pos;
        let ghost old_pos_present = self.positions@.contains_key(k);
        proof {
            if old_pos_present {
                self.positions.lemma_index_of(k);
                lemma_lp_held_update(old_vals, self.positions.index_of(k), np, pool_id@);
            } else {
                lemma_lp_held_push(old_vals, np, pool_id@);
            }
        }
        let ghost old_self = *self;
        let pool_key = pool.pool_id.clone();
        self.pools.insert(pool_key, pool);
        self.positions.insert(key, pos);
        proof {
            assert forall|q: Seq<char>| #[trigger] self.pools@.contains_key(q) implies
                lp_held(self.positions.value_seq(), q) == self.pools@[q].total_lp by {
                if q != pool_id@ {
                    assert(old_self.pools@.contains_key(q));
                    if old_pos_present {
                        old_self.positions.lemma_index_of(k);
                        lemma_lp_held_update(old_vals, old_self.positions.index_of(k), np, q);
                    } else {
                        lemma_lp_held_push(old_vals, np, q);
                    }
                }
            }
            assert forall|q: Seq<char>| #[trigger] self.positions@.contains_key(q) implies {
                let ps = self.positions@[q];
                &&& q == position_key(ps.provider@, ps.pool_id@)
                &&& self.pools@.contains_key(ps.pool_id@)
            } by {
                if q != k {
                    assert(old_self.positions@.contains_key(q));
                }
            }
        }
        Ok(lp_tokens)
    }

    /// What `remove_liquidity(pool_id, provider, lp_tokens, now)` does:
    /// `self` is the exchange after it, `old` before it, `r` its answer.
    pub open spec fn remove_liquidity_outcome(self, old: DexState, pool_id: Seq<char>, provider: Seq<char>, lp_tokens: u64, now: u64, r: Result<(u64, u64), DexError>) -> bool {
        &&& self.wf()
        &&& self.pool_order() == old.pool_order()
        &&& self.swaps() == old.swaps()
        &&& self.prices() == old.prices()
        &&& r is Err ==> self.pools() == old.pools() && self.positions() == old.positions()
        &&& ({
                let found = old.pools().contains_key(pool_id);
                let p = old.pools()[pool_id];
                let k = position_key(provider, pool_id);
                let held = old.positions().contains_key(k);
                let pos = old.positions()[k];
                match r {
                    Err(DexError::PoolNotFound) => !found,
                    Err(DexError::NoPosition) => found && !held,
                    Err(DexError::InsufficientLpTokens) => found && held && lp_tokens > pos.lp_tokens,
                    Err(DexError::EmptyLpSupply) => found && held && lp_tokens <= pos.lp_tokens && p.total_lp == 0,
                    Err(_) => false,
                    Ok((out_rf, out_b)) => {
                        &&& found && held && lp_tokens <= pos.lp_tokens && p.total_lp > 0
                        &&& out_rf == p.reserve_rf * lp_tokens / (p.total_lp as int)
                        &&& out_b == p.reserve_b * lp_tokens / (p.total_lp as int)
                        &&& out_rf <= p.reserve_rf && out_b <= p.reserve_b && lp_tokens <= p.total_lp
                        &&& self.pools() == old.pools().insert(pool_id, pool_after_withdrawal(p, lp_tokens, out_rf, out_b, now))
                        &&& self.positions() == old.positions().insert(k, LpPosition {
                                provider: pos.provider, pool_id: pos.pool_id,
                                lp_tokens: (pos.lp_tokens - lp_tokens) as u64, added_at: pos.added_at })
                    },
                }
            })
    }

    /// Burns `lp_tokens` of the position of `provider` in `pool_id` and pays
    /// out the proportional share of both reserves.
    pub fn remove_liquidity(&mut self, pool_id: &str, provider: &str, lp_tokens: u64, now: u64) -> (r: Result<(u64, u64), DexError>)
        requires
            old(self).wf(),
        ensures
            final(self).remove_liquidity_outcome(*old(self), pool_id@, provider@, lp_tokens, now, r),
    {
        let pool_ref = match self.pools.get(pool_id) {
            Some(p) => p,
            None => return Err(DexError::PoolNotFound),
        };
        let mut key = position_key_text(provider, pool_id);
        let ghost k = key@;
        let pos_ref = match self.positions.get(key.as_str()) {
            Some(p) => p,
            None => return Err(DexError::NoPosition),
        };
        if lp_tokens > pos_ref.lp_tokens {
            return Err(DexError::InsufficientLpTokens);
        }
        if pool_ref.total_lp == 0 {
            return Err(DexError::EmptyLpSupply);
        }
        proof {
            let ps = self.positions@[k];
            assert(k == position_key(ps.provider@, ps.pool_id@));
            lemma_position_key_injective(ps.provider@, ps.pool_id@, provider@, pool_id@);
            self.lemma_position_bound(k);
            lemma_mul_fits(pool_ref.reserve_rf, lp_tokens);
            lemma_mul_fits(pool_ref.reserve_b, lp_tokens);
            lemma_share_bound(pool_ref.reserve_rf as int, lp_tokens as int, pool_ref.total_lp as int);
            lemma_share_bound(pool_ref.reserve_b as int, lp_tokens as int, pool_ref.total_lp as int);
        }
        let amount_rf = (pool_ref.reserve_rf as u128 * lp_tokens as u128 / pool_ref.total_lp as u128) as u64;
        let amount_b = (pool_ref.reserve_b as u128 * lp_tokens as u128 / pool_ref.total_lp as u128) as u64;
        let mut pool = pool_ref.clone();
        pool.reserve_rf = pool.reserve_rf.saturating_sub(amount_rf);
        pool.reserve_b = pool.reserve_b.saturating_sub(amount_b);
        pool.total_lp = pool.total_lp.saturating_sub(lp_tokens);
        pool.update_price(now);
        let pos = LpPosition {
            provider: pos_ref.provider.clone(),
            pool_id: pos_ref.pool_id.clone(),
            lp_tokens: pos_ref.lp_tokens - lp_tokens,
            added_at: pos_ref.added_at,
        };
        let ghost np = pos;
        let ghost old_vals = self.positions.value_seq();
        let ghost old_self = *self;
        proof {
            self.positions.lemma_index_of(k);
            lemma_lp_held_update(old_vals, self.positions.index_of(k), np, pool_id@);
            if lp_tokens < pool.total_lp + lp_tokens {
                lemma_share_left(pool_ref.reserve_rf as int, lp_tokens as int, pool_ref.total_lp as int);
                lemma_share_left(pool_ref.reserve_b as int, lp_tokens as int, pool_ref.total_lp as int);
            }
        }
        let pool_key = pool.pool_id.clone();
        self.pools.insert(pool_key, pool);
        self.positions.insert(key, pos);
        proof {
            assert forall|q: Seq<char>| #[trigger] self.pools@.contains_key(q) implies
                lp_held(self.positions.value_seq(), q) == self.pools@[q].total_lp by {
                if q != pool_id@ {
                    assert(old_self.pools@.contains_key(q));
                    old_self.positions.lemma_index_of(k);
                    lemma_lp_held_update(old_vals, old_self.positions.index_of(k), np, q);
                }
            }
            assert forall|q: Seq<char>| #[trigger] self.positions@.contains_key(q) implies {
                let ps = self.positions@[q];
                &&& q == position_key(ps.provider@, ps.pool_id@)
                &&& self.pools@.contains_key(ps.pool_id@)
            } by {
                if q != k {
                    assert(old_self.positions@.contains_key(q));
                }
            }
        }
        Ok((amount_rf, amount_b))
    }

    /// A swap of `amount_in` on `pool_id` in `dir` would overflow the fee,
    /// volume or fee counters.
    pub open spec fn swap_overflows(self, pool_id: Seq<char>, dir: SwapDirection, amount_in: u64, min_out: u64) -> bool {
        let p = self.pools()[pool_id];
        let (r_in, r_out) = match dir {
            SwapDirection::RfToB => (p.reserve_rf, p.reserve_b),
            SwapDirection::BToRf => (p.reserve_b, p.reserve_rf),
        };
        let out = swap_output(r_in as int, r_out as int, amount_in as int);
        &&& self.pools().contains_key(pool_id)
        &&& p.reserve_rf > 0 && p.reserve_b > 0 && amount_in > 0
        &&& r_in + amount_in <= u64::MAX
        &&& (amount_in * SWAP_FEE_BPS > u64::MAX || (out > 0 && out >= min_out && out < r_out && (
            p.fees_collected + swap_fee(amount_in as int) > u64::MAX
            || (dir == SwapDirection::RfToB && p.volume_rf + amount_in > u64::MAX))))
    }

    /// Swaps `amount_in` of the input side of `dir` on `pool_id`, refusing a
    /// zero input, an empty pool, a zero output, an output under `min_out`, an
    /// output that would drain the pool, and any trade that would lower
    /// `reserve_rf * reserve_b`.
    fn execute_swap(&mut self, pool_id: &str, trader: &str, dir: SwapDirection, amount_in: u64, min_out: u64, tx_hash: &str, now: u64) -> (r: Result<u64, DexError>)
        requires
            old(self).wf(),
            !old(self).swap_overflows(pool_id@, dir, amount_in, min_out),
        ensures
            final(self).swap_outcome(*old(self), pool_id@, trader@, dir, amount_in, min_out, tx_hash@, now, r),
    {
        let pool_ref = match self.pools.get(pool_id) {
            Some(p) => p,
            None => return Err(DexError::PoolNotFound),
        };
        if pool_ref.reserve_rf == 0 || pool_ref.reserve_b == 0 {
            return Err(DexError::EmptyPool);
        }
        if amount_in == 0 {
            return Err(DexError::ZeroAmount);
        }
        let is_rf = match dir { SwapDirection::RfToB => true, SwapDirection::BToRf => false };
        let (r_in, r_out) = if is_rf { (pool_ref.reserve_rf, pool_ref.reserve_b) } else { (pool_ref.reserve_b, pool_ref.reserve_rf) };
        let new_in = match r_in.checked_add(amount_in) {
            Some(v) => v,
            None => return Err(if is_rf { DexError::ReserveRfOverflow } else { DexError::ReserveBOverflow }),
        };
        let (amount_out, fee) = if is_rf {
            pool_ref.calc_swap_rf_to_b(amount_in)
        } else {
            pool_ref.calc_swap_b_to_rf(amount_in)
        };
        if amount_out == 0 {
            return Err(DexError::ZeroOutput);
        }
        if amount_out < min_out {
            return Err(DexError::SlippageExceeded);
        }
        if amount_out >= r_out {
            return Err(DexError::InsufficientLiquidity);
        }
        let new_out = r_out - amount_out;
        proof {
            lemma_mul_fits(r_in, r_out);
            lemma_mul_fits(new_in, new_out);
            lemma_swap_keeps_k(r_in as int, r_out as int, amount_in as int);
        }
        let k_before = r_in as u128 * r_out as u128;
        let k_after = new_in as u128 * new_out as u128;
        proof {
            assert((new_out as int) * (new_in as int) == (new_in as int) * (new_out as int)) by (nonlinear_arith);
            assert((r_out as int) * (r_in as int) == (r_in as int) * (r_out as int)) by (nonlinear_arith);
        }
        if k_after < k_before {
            return Err(DexError::KInvariantViolated);
        }
        let mut pool = pool_ref.clone();
        if is_rf {
            pool.reserve_rf = new_in;
            pool.reserve_b = new_out;
            pool.volume_rf = pool.volume_rf + amount_in;
        } else {
            pool.reserve_b = new_in;
            pool.reserve_rf = new_out;
        }
        pool.fees_collected = pool.fees_collected + fee;
        pool.update_price(now);
        let price = pool.price_rf_in_b;
        let ghost old_self = *self;
        let pool_key = pool.pool_id.clone();
        self.pools.insert(pool_key, pool);
        self.swap_history.push(SwapRecord {
            pool_id: pool_id.to_owned(),
            direction: dir,
            amount_in,
            amount_out,
            fee,
            trader: trader.to_owned(),
            timestamp: now,
            tx_hash: tx_hash.to_owned(),
        });
        self.price_history.push(PricePoint { pool_id: pool_id.to_owned(), timestamp: now, price });
        proof {
            assert(self.swap_history@.drop_last() =~= old_self.swap_history@);
            assert(self.price_history@.drop_last() =~= old_self.price_history@);
            assert forall|q: Seq<char>| #[trigger] self.pools@.contains_key(q) implies
                lp_held(self.positions.value_seq(), q) == self.pools@[q].total_lp by {
                if q != pool_id@ {
                    assert(old_self.pools@.contains_key(q));
                }
            }
            assert forall|q: Seq<char>| #[trigger] self.positions@.contains_key(q) implies
                self.pools@.contains_key(self.positions@[q].pool_id@) by {
                assert(old_self.positions@.contains_key(q));
            }
        }
        Ok(amount_out)
    }

    /// `self` is the exchange after a swap of `amount_in` in direction `dir`
    /// on `pool_id` that returned `r`, starting from `old`.
    pub open spec fn swap_outcome(self, old: DexState, pool_id: Seq<char>, trader: Seq<char>, dir: SwapDirection,
        amount_in: u64, min_out: u64, tx_hash: Seq<char>, now: u64, r: Result<u64, DexError>) -> bool {
        let found = old.pools().contains_key(pool_id);
        let p = old.pools()[pool_id];
        let is_rf = dir == SwapDirection::RfToB;
        let (r_in, r_out) = if is_rf { (p.reserve_rf, p.reserve_b) } else { (p.reserve_b, p.reserve_rf) };
        let empty = p.reserve_rf == 0 || p.reserve_b == 0;
        let fits = r_in + amount_in <= u64::MAX;
        let out = swap_output(r_in as int, r_out as int, amount_in as int);
        let fee = swap_fee(amount_in as int);
        let ok_pre = found && !empty && amount_in > 0 && fits;
        &&& self.wf()
        &&& self.pool_order() == old.pool_order()
        &&& self.positions() == old.positions()
        &&& (r is Err ==> self.pools() == old.pools() && self.swaps() == old.swaps() && self.prices() == old.prices())
        &&& match r {
            Err(DexError::PoolNotFound) => !found,
            Err(DexError::EmptyPool) => found && empty,
            Err(DexError::ZeroAmount) => found && !empty && amount_in == 0,
            Err(DexError::ReserveRfOverflow) => is_rf && found && !empty && amount_in > 0 && !fits,
            Err(DexError::ReserveBOverflow) => !is_rf && found && !empty && amount_in > 0 && !fits,
            Err(DexError::ZeroOutput) => ok_pre && out == 0,
            Err(DexError::SlippageExceeded) => ok_pre && 0 < out < min_out,
            Err(DexError::InsufficientLiquidity) => ok_pre && out > 0 && out >= min_out && out >= r_out,
            Err(_) => false,
            Ok(v) => {
                let new_in = (r_in + amount_in) as u64;
                let new_out = (r_out - out) as u64;
                let (rf, b) = if is_rf { (new_in, new_out) } else { (new_out, new_in) };
                let rec = self.swaps().last();
                &&& ok_pre && out > 0 && out >= min_out && out < r_out
                &&& v == out
                &&& (rf as int) * (b as int) >= (p.reserve_rf as int) * (p.reserve_b as int)
                &&& self.pools() == old.pools().insert(pool_id,
                        pool_after_swap(p, rf, b, if is_rf { amount_in } else { 0 }, fee as u64, now))
                &&& self.swaps().len() == old.swaps().len() + 1
                &&& self.swaps().drop_last() == old.swaps()
                &&& rec.pool_id@ == pool_id && rec.direction == dir && rec.amount_in == amount_in
                &&& rec.amount_out == v && rec.fee == fee && rec.trader@ == trader
                &&& rec.timestamp == now && rec.tx_hash@ == tx_hash
                &&& self.prices().len() == old.prices().len() + 1
                &&& self.prices().drop_last() == old.prices()
                &&& self.prices().last().pool_id@ == pool_id
                &&& self.prices().last().timestamp == now
                &&& self.prices().last().price == price_for(rf, b, p.price_rf_in_b)
            },
        }
    }

    /// Swaps `amount_rf_in` RF for token B on `pool_id`; see `swap_outcome`.
    pub fn execute_swap_rf_to_b(&mut self, pool_id: &str, trader: &str, amount_rf_in: u64, min_amount_out: u64, tx_hash: &str, now: u64) -> (r: Result<u64, DexError>)
        requires
            old(self).wf(),
            !old(self).swap_overflows(pool_id@, SwapDirection::RfToB, amount_rf_in, min_amount_out),
        ensures
            final(self).swap_outcome(*old(self), pool_id@, trader@, SwapDirection::RfToB, amount_rf_in, min_amount_out, tx_hash@, now, r),
    {
        self.execute_swap(pool_id, trader, SwapDirection::RfToB, amount_rf_in, min_amount_out, tx_hash, now)
    }

    /// Swaps `amount_b_in` of token B for RF on `pool_id`; see `swap_outcome`.
    pub fn execute_swap_b_to_rf(&mut self, pool_id: &str, trader: &str, amount_b_in: u64, min_amount_out: u64, tx_hash: &str, now: u64) -> (r: Result<u64, DexError>)
        requires
            old(self).wf(),
            !old(self).swap_overflows(pool_id@, SwapDirection::BToRf, amount_b_in, min_amount_out),
        ensures
            final(self).swap_outcome(*old(self), pool_id@, trader@, SwapDirection::BToRf, amount_b_in, min_amount_out, tx_hash@, now, r),
    {
        self.execute_swap(pool_id, trader, SwapDirection::BToRf, amount_b_in, min_amount_out, tx_hash, now)
    }

    /// The last `limit` swaps of `pool_id`, newest first.
    pub fn get_swap_history(&self, pool_id: &str, limit: usize) -> (v: Vec<SwapRecord>)
        ensures
            v@ == swaps_newest_first(self.swaps(), pool_id@).take(
                if limit < swaps_newest_first(self.swaps(), pool_id@).len() { limit as int }
                else { swaps_newest_first(self.swaps(), pool_id@).len() as int }),
    {
        let ghost all = self.swap_history@;
        let key = pool_id.to_owned();
        let n = self.swap_history.len();
        let mut out: Vec<SwapRecord> = Vec::new();
        let mut i = n;
        proof { lemma_swaps_split(all, n as int, pool_id@); }
        while i > 0 && out.len() < limit
            invariant
                n == all.len(),
                all == self.swap_history@,
                key@ == pool_id@,
                i <= n,
                out.len() <= limit,
                out@ == swaps_newest_first(all.subrange(i as int, n as int), pool_id@),
            decreases i,
        {
            i = i - 1;
            let rec = &self.swap_history[i];
            proof {
                let t = all.subrange(i as int, n as int);
                assert(t.drop_first() =~= all.subrange(i + 1, n as int));
                lemma_swaps_split(t, 1, pool_id@);
                assert(t.subrange(1, t.len() as int) =~= t.drop_first());
                assert(t.subrange(0, 1) =~= seq![t[0]]);
                assert(seq![t[0]].drop_last() =~= Seq::<SwapRecord>::empty());
                assert(swaps_newest_first(Seq::<SwapRecord>::empty(), pool_id@) =~= Seq::<SwapRecord>::empty());
                assert(t[0] == *rec);
            }
            let ghost before = out@;
            if rec.pool_id == key {
                out.push(rec.clone());
                assert(out@ =~= before + seq![*rec]);
            } else {
                assert(out@ =~= before + Seq::<SwapRecord>::empty());
            }
        }
        proof {
            lemma_swaps_split(all, i as int, pool_id@);
            let full = swaps_newest_first(all, pool_id@);
            if i == 0 {
                assert(all.subrange(0, 0) =~= Seq::<SwapRecord>::empty());
                assert(all.subrange(0, n as int) =~= all);
                assert(full.take(full.len() as int) =~= full);
            } else {
                assert(out@ =~= full.take(limit as int));
            }
        }
        out
    }

    /// The last `limit` stored prices of `pool_id` as (timestamp, price), newest first.
    pub fn get_price_history(&self, pool_id: &str, limit: usize) -> (v: Vec<(u64, u64)>)
        ensures
            v@ == prices_newest_first(self.prices(), pool_id@).take(
                if limit < prices_newest_first(self.prices(), pool_id@).len() { limit as int }
                else { prices_newest_first(self.prices(), pool_id@).len() as int }),
    {
        let ghost all = self.price_history@;
        let key = pool_id.to_owned();
        let n = self.price_history.len();
        let mut out: Vec<(u64, u64)> = Vec::new();
        let mut i = n;
        proof { lemma_prices_split(all, n as int, pool_id@); }
        while i > 0 && out.len() < limit
            invariant
                n == all.len(),
                all == self.price_history@,
                key@ == pool_id@,
                i <= n,
                out.len() <= limit,
                out@ == prices_newest_first(all.subrange(i as int, n as int), pool_id@),
            decreases i,
        {
            i = i - 1;
            let pt = &self.price_history[i];
            proof {
                let t = all.subrange(i as int, n as int);
                assert(t.drop_first() =~= all.subrange(i + 1, n as int));
                lemma_prices_split(t, 1, pool_id@);
                assert(t.subrange(1, t.len() as int) =~= t.drop_first());
                assert(t.subrange(0, 1) =~= seq![t[0]]);
                assert(seq![t[0]].drop_last() =~= Seq::<PricePoint>::empty());
                assert(prices_newest_first(Seq::<PricePoint>::empty(), pool_id@) =~= Seq::<(u64, u64)>::empty());
                assert(t[0] == *pt);
            }
            let ghost before = out@;
            if pt.pool_id == key {
                out.push((pt.timestamp, pt.price));
                assert(out@ =~= before + seq![(pt.timestamp, pt.price)]);
            } else {
                assert(out@ =~= before + Seq::<(u64, u64)>::empty());
            }
        }
        proof {
            lemma_prices_split(all, i as int, pool_id@);
            let full = prices_newest_first(all, pool_id@);
            if i == 0 {
                assert(all.subrange(0, 0) =~= Seq::<PricePoint>::empty());
                assert(all.subrange(0, n as int) =~= all);
                assert(full.take(full.len() as int) =~= full);
            } else {
                assert(out@ =~= full.take(limit as int));
            }
        }
        out
    }

    /// The position of `provider` in `pool_id`.
    pub fn get_lp_position(&self, provider: &str, pool_id: &str) -> (r: Option<LpPosition>)
        requires
            self.wf(),
        ensures
            r is Some <==> self.positions().contains_key(position_key(provider@, pool_id@)),
            r matches Some(p) ==> p == self.positions()[position_key(provider@, pool_id@)],
    {
        let mut key = position_key_text(provider, pool_id);
        match self.positions.get(key.as_str()) {
            Some(p) => Some(p.clone()),
            None => None,
        }
    }

    /// Whether a swap of `amount_in` on `pool_id` would overflow a pool
    /// counter (see `swap_overflows`).
    pub fn swap_would_overflow(&self, pool_id: &str, dir: SwapDirection, amount_in: u64, min_out: u64) -> (r: bool)
        requires
            self.wf(),
        ensures
            r == self.swap_overflows(pool_id@, dir, amount_in, min_out),
    {
        let p = match self.get_pool(pool_id) {
            None => return false,
            Some(p) => p,
        };
        let (r_in, r_out) = match dir {
            SwapDirection::RfToB => (p.reserve_rf, p.reserve_b),
            SwapDirection::BToRf => (p.reserve_b, p.reserve_rf),
        };
        if !(p.reserve_rf > 0 && p.reserve_b > 0 && amount_in > 0) {
            return false;
        }
        if r_in as u128 + amount_in as u128 > u64::MAX as u128 {
            return false;
        }
        assert(amount_in as int * SWAP_FEE_BPS as int <= u64::MAX as int * 30) by (nonlinear_arith)
            requires
                amount_in <= u64::MAX,
        ;
        if amount_in as u128 * SWAP_FEE_BPS as u128 > u64::MAX as u128 {
            return true;
        }
        let fee: u128 = amount_in as u128 * SWAP_FEE_BPS as u128 / 10_000;
        let after: u128 = amount_in as u128 - fee;
        assert(r_out as int * after as int <= u64::MAX as int * u64::MAX as int) by (nonlinear_arith)
            requires
                r_out <= u64::MAX,
                after <= u64::MAX,
        ;
        let out: u128 = r_out as u128 * after / (r_in as u128 + after);
        if !(out > 0 && out >= min_out as u128 && out < r_out as u128) {
            return false;
        }
        (p.fees_collected as u128 + fee > u64::MAX as u128)
            || (matches!(dir, SwapDirection::RfToB) && p.volume_rf as u128 + amount_in as u128 > u64::MAX as u128)
    }
}

} // verus!
