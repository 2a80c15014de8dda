//! Balances of wrapped tokens minted by the bridge, one per address and token.

use vstd::prelude::*;
use crate::codec::{decimal, decimal_text};
use crate::dex::{lemma_position_key_injective, position_key};
use crate::strmap::StrMap;

verus! {

/// Tokens the chain holds in wrapped form, backed one to one by assets locked on EVM chains.
pub const SUPPORTED_TOKENS: [&'static str; 5] = ["wETH", "wBNB", "wMATIC", "wUSDC", "wUSDT"];

/// Units of a wrapped token per whole token (6 decimals).
pub const TOKEN_DECIMALS: u64 = 1_000_000;

/// Largest supply of one token: all that was credited of it and not debited.
pub const MAX_TOKEN_SUPPLY: u64 = 1_000_000_000_000_000;

/// Wei per token unit: bridged amounts arrive with 18 decimals and are kept with 6.
pub const WEI_PER_UNIT: u64 = 1_000_000_000_000;

/// One address's balance of one token.
pub struct TokenBalance {
    pub address: String,
    pub token: String,
    pub balance: u64,
}

/// Why the ledger refused a change.
#[derive(Clone, Copy, Debug, PartialEq, Eq, Structural)]
pub enum TokenError {
    ZeroAmount,
    Overflow,
    ExceedsMaxSupply,
    InsufficientBalance,
    AmountTooSmall,
}

/// Key under which the balance of `token` held by `address` is stored: the
/// token's length in decimal, `:`, the token, then the address. No two
/// (address, token) pairs share a key (`lemma_balance_key_injective`).
pub open spec fn balance_key(address: Seq<char>, token: Seq<char>) -> Seq<char> {
    decimal(token.len()) + ":"@ + token + address
}

/// Different (address, token) pairs have different keys.
pub proof fn lemma_balance_key_injective(a: Seq<char>, ta: Seq<char>, b: Seq<char>, tb: Seq<char>)
    requires
        balance_key(a, ta) == balance_key(b, tb),
    ensures
        a == b,
        ta == tb,
{
    assert(balance_key(a, ta) == position_key(a, ta));
    assert(balance_key(b, tb) == position_key(b, tb));
    lemma_position_key_injective(a, ta, b, tb);
}

/// Sum of the balances of `token` among `es`.
pub open spec fn token_held(es: Seq<TokenBalance>, token: Seq<char>) -> int
    decreases es.len(),
{
    if es.len() == 0 {
        0
    } else {
        token_held(es.drop_last(), token) + if es.last().token@ == token { es.last().balance as int } else { 0int }
    }
}

proof fn lemma_held_push(es: Seq<TokenBalance>, x: TokenBalance, token: Seq<char>)
    ensures
        token_held(es.push(x), token) == token_held(es, token) + if x.token@ == token { x.balance as int } else { 0int },
{
    assert(es.push(x).drop_last() =~= es);
}

proof fn lemma_held_update(es: Seq<TokenBalance>, i: int, x: TokenBalance, token: Seq<char>)
    requires
        0 <= i < es.len(),
    ensures
        token_held(es.update(i, x), token) == token_held(es, token)
            - (if es[i].token@ == token { es[i].balance as int } else { 0int })
            + (if x.token@ == token { x.balance as int } else { 0int }),
    decreases es.len(),
{
    let u = es.update(i, x);
    if i == es.len() - 1 {
        assert(u.drop_last() =~= es.drop_last());
    } else {
        lemma_held_update(es.drop_last(), i, x, token);
        assert(u.drop_last() =~= es.drop_last().update(i, x));
    }
}

proof fn lemma_held_nonneg(es: Seq<TokenBalance>, token: Seq<char>)
    ensures
        token_held(es, token) >= 0,
    decreases es.len(),
{
    if es.len() > 0 {
        lemma_held_nonneg(es.drop_last(), token);
    }
}

proof fn lemma_held_bound(es: Seq<TokenBalance>, i: int, token: Seq<char>)
    requires
        0 <= i < es.len(),
        es[i].token@ == token,
    ensures
        es[i].balance <= token_held(es, token),
    decreases es.len(),
{
    lemma_held_nonneg(es.drop_last(), token);
    if i < es.len() - 1 {
        lemma_held_bound(es.drop_last(), i, token);
    }
}

/// Balance under `key` in `m`, 0 when absent.
pub open spec fn balance_in(m: Map<Seq<char>, u64>, key: Seq<char>) -> u64 {
    if m.contains_key(key) { m[key] } else { 0 }
}

/// The token ledger as a mathematical value: the balances, keyed by
/// `balance_key(address, token)`, and each token's supply, keyed by the
/// token: what was credited of it and not debited.
pub struct TokenView {
    pub balances: Map<Seq<char>, u64>,
    pub supplies: Map<Seq<char>, u64>,
}

/// Supply of `token` in `v`, 0 when absent.
pub open spec fn supply_in(v: TokenView, token: Seq<char>) -> u64 {
    balance_in(v.supplies, token)
}

/// Outcome of crediting `amount` of `token` to `address`: refused for zero,
/// for a balance past `u64::MAX`, and for a supply of the token past
/// `MAX_TOKEN_SUPPLY`; otherwise the new balance.
pub open spec fn credit_result(v: TokenView, address: Seq<char>, token: Seq<char>, amount: u64) -> Result<u64, TokenError> {
    let new_bal = balance_in(v.balances, balance_key(address, token)) + amount;
    if amount == 0 {
        Err(TokenError::ZeroAmount)
    } else if new_bal > u64::MAX {
        Err(TokenError::Overflow)
    } else if supply_in(v, token) + amount > MAX_TOKEN_SUPPLY {
        Err(TokenError::ExceedsMaxSupply)
    } else {
        Ok(new_bal as u64)
    }
}

/// The ledger after crediting `amount` of `token` to `address`: on success
/// the balance and the token's supply both grow by `amount`.
pub open spec fn after_credit(v: TokenView, address: Seq<char>, token: Seq<char>, amount: u64) -> TokenView {
    match credit_result(v, address, token, amount) {
        Ok(b) => TokenView {
            balances: v.balances.insert(balance_key(address, token), b),
            supplies: v.supplies.insert(token, (supply_in(v, token) + amount) as u64),
        },
        Err(_) => v,
    }
}

/// Outcome of debiting `amount` of `token` from `address`: refused when the
/// balance is smaller; otherwise the new balance.
pub open spec fn debit_result(v: TokenView, address: Seq<char>, token: Seq<char>, amount: u64) -> Result<u64, TokenError> {
    let bal = balance_in(v.balances, balance_key(address, token));
    if bal < amount {
        Err(TokenError::InsufficientBalance)
    } else {
        Ok((bal - amount) as u64)
    }
}

/// The ledger after debiting `amount` of `token` from `address`: on success
/// the balance and the token's supply both shrink by `amount` (a token's
/// supply is the sum of its balances, so it is never below one of them).
pub open spec fn after_debit(v: TokenView, address: Seq<char>, token: Seq<char>, amount: u64) -> TokenView {
    match debit_result(v, address, token, amount) {
        Ok(b) => TokenView {
            balances: v.balances.insert(balance_key(address, token), b),
            supplies: v.supplies.insert(token, (supply_in(v, token) - amount) as u64),
        },
        Err(_) => v,
    }
}

/// Crediting an amount and then debiting it gives the balance back and
/// leaves every balance and every supply as it was (the emptied keys may
/// stay present with their old values).
pub proof fn lemma_credit_then_debit(v: TokenView, address: Seq<char>, token: Seq<char>, amount: u64)
    requires
        credit_result(v, address, token, amount) is Ok,
    ensures
        ({
            let v1 = after_credit(v, address, token, amount);
            let v2 = after_debit(v1, address, token, amount);
            &&& debit_result(v1, address, token, amount) == Ok::<u64, TokenError>(balance_in(v.balances, balance_key(address, token)))
            &&& forall|k: Seq<char>| balance_in(#[trigger] v2.balances, k) == balance_in(v.balances, k)
            &&& forall|t: Seq<char>| #[trigger] supply_in(v2, t) == supply_in(v, t)
        }),
{
    let key = balance_key(address, token);
    let v1 = after_credit(v, address, token, amount);
    let v2 = after_debit(v1, address, token, amount);
    assert forall|k: Seq<char>| balance_in(#[trigger] v2.balances, k) == balance_in(v.balances, k) by {
        if k != key {
            assert(v2.balances.contains_key(k) == v.balances.contains_key(k));
        }
    }
    assert forall|t: Seq<char>| #[trigger] supply_in(v2, t) == supply_in(v, t) by {
        if t != token {
            assert(v2.supplies.contains_key(t) == v.supplies.contains_key(t));
        }
    }
}

/// No token's supply ever exceeds `MAX_TOKEN_SUPPLY`: a ledger whose
/// supplies are capped, and whose supply of `token` covers the balance of
/// `address` (as in every well-formed ledger), stays capped after any credit
/// or debit.
pub proof fn lemma_supply_capped(v: TokenView, address: Seq<char>, token: Seq<char>, amount: u64)
    requires
        supplies_capped(v),
        balance_in(v.balances, balance_key(address, token)) <= supply_in(v, token),
    ensures
        supplies_capped(after_credit(v, address, token, amount)),
        supplies_capped(after_debit(v, address, token, amount)),
{
}

/// Every token's supply is at most `MAX_TOKEN_SUPPLY`.
pub open spec fn supplies_capped(v: TokenView) -> bool {
    forall|t: Seq<char>| #[trigger] v.supplies.contains_key(t) ==> v.supplies[t] <= MAX_TOKEN_SUPPLY
}

/// Wrapped-token balances keyed by address and token, with each token's supply.
pub struct TokenLedger {
    balances: StrMap<TokenBalance>,
    supplies: StrMap<u64>,
}

impl View for TokenLedger {
    type V = TokenView;

    closed spec fn view(&self) -> TokenView {
        TokenView { balances: self.balances@.map_values(|e: TokenBalance| e.balance), supplies: self.supplies@ }
    }
}

/// The nonzero balances of `address` among the first `k` supported
/// tokens, in their listed order, as (address, token, balance).
pub open spec fn held_balances(l: TokenLedger, address: Seq<char>, k: int) -> Seq<(Seq<char>, Seq<char>, u64)>
    decreases k,
{
    if k <= 0 {
        Seq::empty()
    } else {
        let t = SUPPORTED_TOKENS[k - 1]@;
        let b = l.balance_of(address, t);
        if b > 0 {
            held_balances(l, address, k - 1).push((address, t, b))
        } else {
            held_balances(l, address, k - 1)
        }
    }
}

impl TokenLedger {
    /// Each entry sits under the key of its address and token, and each
    /// token's supply is the sum of its balances over all addresses, at most
    /// `MAX_TOKEN_SUPPLY`.
    pub closed spec fn wf(self) -> bool {
        &&& self.balances.wf()
        &&& self.supplies.wf()
        &&& supplies_capped(self@)
        &&& forall|q: Seq<char>| #[trigger] self.balances@.contains_key(q)
                ==> q == balance_key(self.balances@[q].address@, self.balances@[q].token@)
        &&& forall|t: Seq<char>| #[trigger] supply_in(self@, t) == self.held_total(t)
    }

    /// The sum of the balances of `token` over all addresses.
    pub closed spec fn held_total(self, token: Seq<char>) -> int {
        token_held(self.balances.value_seq(), token)
    }

    /// A token's supply is the sum of its balances over all addresses, and
    /// at most `MAX_TOKEN_SUPPLY`.
    pub proof fn lemma_supply_is_held(self, token: Seq<char>)
        requires
            self.wf(),
        ensures
            supply_in(self@, token) == self.held_total(token),
            self.held_total(token) <= MAX_TOKEN_SUPPLY,
    {
        if self.supplies@.contains_key(token) {
            assert(self@.supplies.contains_key(token));
        }
    }

    /// No address holds more of a token than the token's supply.
    pub proof fn lemma_balance_within_supply(self, address: Seq<char>, token: Seq<char>)
        requires
            self.wf(),
        ensures
            self.balance_of(address, token) <= supply_in(self@, token),
    {
        let k = balance_key(address, token);
        assert(supply_in(self@, token) == self.held_total(token));
        if self.balances@.contains_key(k) {
            self.balances.lemma_index_of(k);
            let e = self.balances@[k];
            lemma_balance_key_injective(e.address@, e.token@, address, token);
            lemma_held_bound(self.balances.value_seq(), self.balances.index_of(k), token);
        }
    }

    /// Balance of `token` held by `address`.
    pub open spec fn balance_of(self, address: Seq<char>, token: Seq<char>) -> u64 {
        balance_in(self@.balances, balance_key(address, token))
    }

    /// An empty ledger.
    pub fn new() -> (l: Self)
        ensures
            l.wf(),
            l@.balances == Map::<Seq<char>, u64>::empty(),
            l@.supplies == Map::<Seq<char>, u64>::empty(),
    {
        let l = TokenLedger { balances: StrMap::new(), supplies: StrMap::new() };
        proof {
            assert(l.balances.value_seq() =~= Seq::<TokenBalance>::empty()) by {
                l.balances.lemma_values();
                assert(l.balances.key_seq().len() == 0) by {
                    if l.balances.key_seq().len() > 0 {
                        assert(l.balances@.contains_key(l.balances.key_seq()[0]));
                    }
                }
            }
            assert(l@.balances =~= Map::<Seq<char>, u64>::empty());
        }
        l
    }

    /// What was credited of `token` and not debited.
    pub fn supply_of(&self, token: &str) -> (s: u64)
        requires
            self.wf(),
        ensures
            s == supply_in(self@, token@),
            s <= MAX_TOKEN_SUPPLY,
    {
        match self.supplies.get(token) {
            Some(v) => {
                assert(self@.supplies.contains_key(token@));
                *v
            },
            None => 0,
        }
    }

    fn key(address: &str, token: &str) -> (k: String)
        ensures
            k@ == balance_key(address@, token@),
    {
        let n = token.unicode_len();
        let mut k = decimal_text(n as u64);
        k.append(":");
        k.append(token);
        k.append(address);
        k
    }

    /// Balance of `token` held by `address` (0 when none was ever set).
    pub fn get_balance(&self, address: &str, token: &str) -> (b: u64)
        requires
            self.wf(),
        ensures
            b == self.balance_of(address@, token@),
    {
        let k = Self::key(address, token);
        match self.balances.get(k.as_str()) {
            Some(e) => e.balance,
            None => 0,
        }
    }

    /// Stores `balance` for `address` and `token` and `supply` as the
    /// token's supply, which must be the supply with the old balance
    /// replaced by the new one.
    fn put(&mut self, address: &str, token: &str, balance: u64, supply: u64)
        requires
            old(self).wf(),
            supply <= MAX_TOKEN_SUPPLY,
            supply == supply_in(old(self)@, token@) - old(self).balance_of(address@, token@) + balance,
        ensures
            final(self).wf(),
            final(self)@.balances == old(self)@.balances.insert(balance_key(address@, token@), balance),
            final(self)@.supplies == old(self)@.supplies.insert(token@, supply),
    {
        let ghost t = token@;
        let k = Self::key(address, token);
        let ghost kv = k@;
        let ghost vals = self.balances.value_seq();
        let ghost present = self.balances@.contains_key(kv);
        let ghost old_self = *self;
        let entry = TokenBalance { address: address.to_owned(), token: token.to_owned(), balance };
        let ghost ne = entry;
        proof {
            assert(old_self.held_total(t) == supply_in(old_self@, t));
            if present {
                self.balances.lemma_index_of(kv);
                let e = self.balances@[kv];
                lemma_balance_key_injective(e.address@, e.token@, address@, t);
                assert(self@.balances[kv] == e.balance);
                assert forall|u: Seq<char>| #[trigger] token_held(vals.update(self.balances.index_of(kv), ne), u)
                    == token_held(vals, u) - (if u == t { e.balance as int } else { 0int })
                        + (if u == t { balance as int } else { 0int }) by {
                    lemma_held_update(vals, self.balances.index_of(kv), ne, u);
                }
            } else {
                assert forall|u: Seq<char>| #[trigger] token_held(vals.push(ne), u)
                    == token_held(vals, u) + (if u == t { balance as int } else { 0int }) by {
                    lemma_held_push(vals, ne, u);
                }
            }
        }
        self.balances.insert(k, entry);
        self.supplies.insert(token.to_owned(), supply);
        proof {
            assert(self@.balances =~= old_self@.balances.insert(kv, balance));
            assert forall|q: Seq<char>| #[trigger] self.balances@.contains_key(q)
                implies q == balance_key(self.balances@[q].address@, self.balances@[q].token@) by {
                if q != kv {
                    assert(old_self.balances@.contains_key(q));
                }
            }
            assert forall|u: Seq<char>| #[trigger] supply_in(self@, u) == self.held_total(u) by {
                assert(old_self.held_total(u) == supply_in(old_self@, u));
                if u != t {
                    assert(self@.supplies.contains_key(u) == old_self@.supplies.contains_key(u));
                }
            }
            assert forall|u: Seq<char>| #[trigger] self@.supplies.contains_key(u) implies self@.supplies[u] <= MAX_TOKEN_SUPPLY by {
                if u != t {
                    assert(old_self@.supplies.contains_key(u));
                }
            }
        }
    }

    /// Sets the balance of `token` held by `address`, moving the token's
    /// supply by the difference; refuses, changing nothing, when the supply
    /// would pass `MAX_TOKEN_SUPPLY`.
    pub fn set_balance(&mut self, address: &str, token: &str, balance: u64) -> (r: Result<(), TokenError>)
        requires
            old(self).wf(),
        ensures
            final(self).wf(),
            ({
                let s = supply_in(old(self)@, token@) - old(self).balance_of(address@, token@) + balance;
                &&& s > MAX_TOKEN_SUPPLY ==> r == Err::<(), TokenError>(TokenError::ExceedsMaxSupply)
                        && final(self)@ == old(self)@
                &&& s <= MAX_TOKEN_SUPPLY ==> r is Ok
                        && final(self)@.balances == old(self)@.balances.insert(balance_key(address@, token@), balance)
                        && final(self)@.supplies == old(self)@.supplies.insert(token@, s as u64)
            }),
    {
        let cur = self.get_balance(address, token);
        let supply = self.supply_of(token);
        proof {
            self.lemma_balance_within_supply(address@, token@);
        }
        let rest = supply - cur;
        if balance > MAX_TOKEN_SUPPLY - rest {
            return Err(TokenError::ExceedsMaxSupply);
        }
        self.put(address, token, balance, rest + balance);
        Ok(())
    }

    /// Adds `amount` to the balance and to the token's supply; refuses zero,
    /// a balance past `u64::MAX`, and a supply past `MAX_TOKEN_SUPPLY`.
    pub fn credit(&mut self, address: &str, token: &str, amount: u64) -> (r: Result<u64, TokenError>)
        requires
            old(self).wf(),
        ensures
            final(self).wf(),
            r == credit_result(old(self)@, address@, token@, amount),
            final(self)@ == after_credit(old(self)@, address@, token@, amount),
    {
        if amount == 0 {
            return Err(TokenError::ZeroAmount);
        }
        let cur = self.get_balance(address, token);
        let new_bal = match cur.checked_add(amount) {
            Some(v) => v,
            None => return Err(TokenError::Overflow),
        };
        let supply = self.supply_of(token);
        if amount > MAX_TOKEN_SUPPLY - supply {
            return Err(TokenError::ExceedsMaxSupply);
        }
        self.put(address, token, new_bal, supply + amount);
        proof {
            assert(self@ =~= after_credit(old(self)@, address@, token@, amount));
        }
        Ok(new_bal)
    }

    /// Subtracts `amount` from the balance and from the token's supply;
    /// refuses when the balance is smaller.
    pub fn debit(&mut self, address: &str, token: &str, amount: u64) -> (r: Result<u64, TokenError>)
        requires
            old(self).wf(),
        ensures
            final(self).wf(),
            r == debit_result(old(self)@, address@, token@, amount),
            final(self)@ == after_debit(old(self)@, address@, token@, amount),
    {
        let cur = self.get_balance(address, token);
        if cur < amount {
            return Err(TokenError::InsufficientBalance);
        }
        let new_bal = cur - amount;
        let supply = self.supply_of(token);
        proof {
            self.lemma_balance_within_supply(address@, token@);
        }
        self.put(address, token, new_bal, supply - amount);
        proof {
            assert(self@ =~= after_debit(old(self)@, address@, token@, amount));
        }
        Ok(new_bal)
    }

    /// The nonzero balances of `address` among the supported tokens, in their listed order.
    pub fn get_all_balances(&self, address: &str) -> (v: Vec<TokenBalance>)
        requires
            self.wf(),
        ensures
            v@.map_values(|b: TokenBalance| (b.address@, b.token@, b.balance)) == held_balances(*self, address@, 5),
    {
        let tokens = SUPPORTED_TOKENS;
        let mut v: Vec<TokenBalance> = Vec::new();
        let mut j: usize = 0;
        while j < 5
            invariant
                self.wf(),
                tokens == SUPPORTED_TOKENS,
                j <= 5,
                v@.map_values(|b: TokenBalance| (b.address@, b.token@, b.balance)) == held_balances(*self, address@, j as int),
            decreases 5 - j,
        {
            let token = tokens[j];
            assert(token@ == SUPPORTED_TOKENS[j as int]@);
            let bal = self.get_balance(address, token);
            let ghost vb = v@.map_values(|b: TokenBalance| (b.address@, b.token@, b.balance));
            if bal > 0 {
                v.push(TokenBalance { address: address.to_owned(), token: token.to_owned(), balance: bal });
                assert(v@.map_values(|b: TokenBalance| (b.address@, b.token@, b.balance)) =~= vb.push((address@, token@, bal)));
            }
            j = j + 1;
        }
        v
    }

    /// Credits `amount_wei / WEI_PER_UNIT` units minted by the bridge and returns them.
    pub fn mint_from_bridge(&mut self, to: &str, token: &str, amount_wei: u64) -> (r: Result<u64, TokenError>)
        requires
            old(self).wf(),
        ensures
            final(self).wf(),
            ({
                let units = (amount_wei / WEI_PER_UNIT) as u64;
                let c = credit_result(old(self)@, to@, token@, units);
                &&& units == 0 ==> r == Err::<u64, TokenError>(TokenError::AmountTooSmall) && final(self)@ == old(self)@
                &&& units > 0 ==> final(self)@ == after_credit(old(self)@, to@, token@, units)
                    && (r == match c { Ok(_) => Ok(units), Err(e) => Err(e) })
            }),
    {
        let amount_units = amount_wei / WEI_PER_UNIT;
        if amount_units == 0 {
            return Err(TokenError::AmountTooSmall);
        }
        match self.credit(to, token, amount_units) {
            Ok(_) => Ok(amount_units),
            Err(e) => Err(e),
        }
    }

    /// Burns `amount_units` for a transfer back to an EVM chain and returns the amount in wei.
    pub fn burn_for_bridge(&mut self, from: &str, token: &str, amount_units: u64) -> (r: Result<u64, TokenError>)
        requires
            old(self).wf(),
            old(self).balance_of(from@, token@) >= amount_units ==> amount_units * WEI_PER_UNIT <= u64::MAX,
        ensures
            final(self).wf(),
            ({
                let d = debit_result(old(self)@, from@, token@, amount_units);
                &&& final(self)@ == after_debit(old(self)@, from@, token@, amount_units)
                &&& r == match d { Ok(_) => Ok((amount_units * WEI_PER_UNIT) as u64), Err(e) => Err(e) }
            }),
    {
        match self.debit(from, token, amount_units) {
            Ok(_) => Ok(amount_units * WEI_PER_UNIT),
            Err(e) => Err(e),
        }
    }

    /// Credits a pool's reserve account.
    pub fn pool_credit(&mut self, pool_id: &str, token: &str, amount: u64) -> (r: Result<(), TokenError>)
        requires
            old(self).wf(),
        ensures
            final(self).wf(),
            ({
                let c = credit_result(old(self)@, pool_id@, token@, amount);
                &&& final(self)@ == after_credit(old(self)@, pool_id@, token@, amount)
                &&& r == match c { Ok(_) => Ok(()), Err(e) => Err(e) }
            }),
    {
        match self.credit(pool_id, token, amount) {
            Ok(_) => Ok(()),
            Err(e) => Err(e),
        }
    }

    /// Debits a pool's reserve account.
    pub fn pool_debit(&mut self, pool_id: &str, token: &str, amount: u64) -> (r: Result<(), TokenError>)
        requires
            old(self).wf(),
        ensures
            final(self).wf(),
            ({
                let d = debit_result(old(self)@, pool_id@, token@, amount);
                &&& final(self)@ == after_debit(old(self)@, pool_id@, token@, amount)
                &&& r == match d { Ok(_) => Ok(()), Err(e) => Err(e) }
            }),
    {
        match self.debit(pool_id, token, amount) {
            Ok(_) => Ok(()),
            Err(e) => Err(e),
        }
    }
}

} // verus!
