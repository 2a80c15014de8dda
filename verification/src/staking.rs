//! Validator stakes: locking RF, the unbonding delay, and the share of fees
//! paid to active validators.

use vstd::prelude::*;
use crate::strmap::{ascending_keys, lemma_ascending_keys, string_views, StrMap};

verus! {

/// Smallest stake of a validator.
pub const MIN_STAKE: u64 = 10_000;

/// Rounds to wait between asking to unstake and withdrawing.
pub const UNSTAKE_DELAY_ROUNDS: u64 = 10;

/// The stake of one address.
pub struct StakeRecord {
    pub address: String,
    pub amount: u64,
    pub since_round: u64,
    /// Round from which the stake may be withdrawn; 0 while not unbonding.
    pub unbonding_at: u64,
}

impl Clone for StakeRecord {
    fn clone(&self) -> (r: Self)
        ensures
            r == *self,
    {
        StakeRecord {
            address: self.address.clone(),
            amount: self.amount,
            since_round: self.since_round,
            unbonding_at: self.unbonding_at,
        }
    }
}

pub struct StakingStats {
    pub total_staked: u64,
    pub validator_count: usize,
    pub min_stake: u64,
}

/// Why a staking request was refused.
#[derive(Clone, Copy, Debug, PartialEq, Eq, Structural)]
pub enum StakingError {
    BelowMinimum,
    NoStake,
    AlreadyUnbonding,
    NotUnbonding,
    StillUnbonding,
}

/// A stake that counts for validation.
pub open spec fn is_active(r: StakeRecord) -> bool {
    r.amount >= MIN_STAKE && r.unbonding_at == 0
}

/// Active stakes of `s`, in order.
pub open spec fn active_of(s: Seq<StakeRecord>) -> Seq<StakeRecord> {
    s.filter(|r: StakeRecord| is_active(r))
}

/// Sum of the amounts of `s`.
pub open spec fn total_amount(s: Seq<StakeRecord>) -> int
    decreases s.len(),
{
    if s.len() == 0 {
        0
    } else {
        total_amount(s.drop_last()) + s.last().amount
    }
}

/// Reward of a validator with stake `amount` out of `total` in a pool of `fee_pool`.
pub open spec fn reward(fee_pool: u64, amount: u64, total: int) -> int {
    fee_pool * amount / total
}

/// Rewards of the validators of `vs`, in order, leaving out those that round to zero.
pub open spec fn rewards_of(vs: Seq<StakeRecord>, fee_pool: u64, total: int) -> Seq<(Seq<char>, int)>
    decreases vs.len(),
{
    if vs.len() == 0 {
        Seq::empty()
    } else {
        let share = reward(fee_pool, vs.last().amount, total);
        rewards_of(vs.drop_last(), fee_pool, total) + if share > 0 {
            seq![(vs.last().address@, share)]
        } else {
            Seq::empty()
        }
    }
}

proof fn lemma_total_amount_nonneg(s: Seq<StakeRecord>)
    ensures
        total_amount(s) >= 0,
    decreases s.len(),
{
    if s.len() > 0 {
        lemma_total_amount_nonneg(s.drop_last());
    }
}

/// The rewards paid out never exceed the fee pool: each share is rounded down
/// and the shares are proportional to stakes that sum to `total`.
pub proof fn lemma_rewards_within_pool(vs: Seq<StakeRecord>, fee_pool: u64)
    requires
        total_amount(vs) > 0,
    ensures
        sum_shares(rewards_of(vs, fee_pool, total_amount(vs))) <= fee_pool,
{
    let t = total_amount(vs);
    lemma_rewards_bound(vs, fee_pool, t);
    assert(fee_pool * total_amount(vs) / t == fee_pool as int) by {
        vstd::arithmetic::div_mod::lemma_div_multiples_vanish(fee_pool as int, t);
        assert(fee_pool * t == t * fee_pool) by (nonlinear_arith);
    }
}

/// Sum of the shares of a list of rewards.
pub open spec fn sum_shares(r: Seq<(Seq<char>, int)>) -> int
    decreases r.len(),
{
    if r.len() == 0 {
        0
    } else {
        sum_shares(r.drop_last()) + r.last().1
    }
}

proof fn lemma_rewards_bound(vs: Seq<StakeRecord>, fee_pool: u64, t: int)
    requires
        t > 0,
    ensures
        sum_shares(rewards_of(vs, fee_pool, t)) <= fee_pool * total_amount(vs) / t,
    decreases vs.len(),
{
    if vs.len() > 0 {
        let prev = vs.drop_last();
        lemma_rewards_bound(prev, fee_pool, t);
        lemma_total_amount_nonneg(prev);
        let a = vs.last().amount;
        let share = reward(fee_pool, a, t);
        let r0 = rewards_of(prev, fee_pool, t);
        if share > 0 {
            let r1 = r0 + seq![(vs.last().address@, share)];
            assert(r1.drop_last() =~= r0);
        } else {
            assert(rewards_of(vs, fee_pool, t) =~= r0);
        }
        // floor(x / t) + floor(y / t) <= floor((x + y) / t)
        let x = fee_pool * total_amount(prev);
        let y = fee_pool * a;
        assert(fee_pool * total_amount(vs) == x + y) by (nonlinear_arith)
            requires total_amount(vs) == total_amount(prev) + a, x == fee_pool * total_amount(prev), y == fee_pool * a;
        assert(x >= 0 && y >= 0) by (nonlinear_arith)
            requires fee_pool >= 0, total_amount(prev) >= 0, a >= 0, x == fee_pool * total_amount(prev), y == fee_pool * a;
        lemma_floor_sum(x, y, t);
    }
}

proof fn lemma_floor_sum(x: int, y: int, t: int)
    requires
        x >= 0,
        y >= 0,
        t > 0,
    ensures
        x / t + y / t <= (x + y) / t,
{
    vstd::arithmetic::div_mod::lemma_fundamental_div_mod(x, t);
    vstd::arithmetic::div_mod::lemma_fundamental_div_mod(y, t);
    let q = x / t + y / t;
    assert(t * q <= x + y) by (nonlinear_arith)
        requires x == t * (x / t) + x % t, y == t * (y / t) + y % t, x % t >= 0, y % t >= 0, q == x / t + y / t;
    vstd::arithmetic::div_mod::lemma_div_is_ordered(t * q, x + y, t);
    vstd::arithmetic::div_mod::lemma_div_multiples_vanish(q, t);
}

/// Stakes keyed by address.
pub struct StakingState {
    stakes: StrMap<StakeRecord>,
}

impl StakingState {
    pub closed spec fn wf(self) -> bool {
        &&& self.stakes.wf()
        &&& forall|k: Seq<char>| #[trigger] self.stakes@.contains_key(k) ==> self.stakes@[k].address@ == k
    }

    pub closed spec fn stakes(self) -> Map<Seq<char>, StakeRecord> {
        self.stakes@
    }

    /// The stake records in ascending text order of address.
    pub closed spec fn records(self) -> Seq<StakeRecord> {
        ascending_keys(self.stakes@.dom()).map_values(|k: Seq<char>| self.stakes@[k])
    }

    /// No stakes.
    pub fn new() -> (s: Self)
        ensures
            s.wf(),
            s.stakes() == Map::<Seq<char>, StakeRecord>::empty(),
            s.records() == Seq::<StakeRecord>::empty(),
    {
        let s = StakingState { stakes: StrMap::new() };
        proof {
            let e = Seq::<Seq<char>>::empty();
            lemma_ascending_keys(e);
            assert(e.to_set() =~= s.stakes@.dom());
        }
        proof { s.stakes.lemma_values(); }
        assert(s.records() =~= Seq::<StakeRecord>::empty());
        s
    }

    /// The stake of `address`.
    pub fn get_stake(&self, address: &str) -> (r: Option<StakeRecord>)
        requires
            self.wf(),
        ensures
            r is Some <==> self.stakes().contains_key(address@),
            r matches Some(s) ==> s == self.stakes()[address@],
    {
        match self.stakes.get(address) {
            Some(r) => Some(r.clone()),
            None => None,
        }
    }

    /// Locks `amount` more for `address`; a new stake starts at `current_round`
    /// and staking again cancels a pending unbonding.
    pub fn stake(&mut self, address: &str, amount: u64, current_round: u64) -> (r: Result<(), StakingError>)
        requires
            old(self).wf(),
            amount >= MIN_STAKE && old(self).stakes().contains_key(address@)
                ==> old(self).stakes()[address@].amount + amount <= u64::MAX,
        ensures
            final(self).wf(),
            amount < MIN_STAKE <==> r == Err::<(), StakingError>(StakingError::BelowMinimum),
            amount >= MIN_STAKE ==> r is Ok,
            r is Err ==> final(self).stakes() == old(self).stakes(),
            r is Ok ==> ({
                let n = final(self).stakes()[address@];
                &&& final(self).stakes() == old(self).stakes().insert(address@, n)
                &&& n.address@ == address@
                &&& n.unbonding_at == 0
                &&& if old(self).stakes().contains_key(address@) {
                        n.amount == old(self).stakes()[address@].amount + amount
                        && n.since_round == old(self).stakes()[address@].since_round
                    } else {
                        n.amount == amount && n.since_round == current_round
                    }
            }),
    {
        if amount < MIN_STAKE {
            return Err(StakingError::BelowMinimum);
        }
        let record = match self.stakes.get(address) {
            Some(existing) => StakeRecord {
                address: existing.address.clone(),
                amount: existing.amount + amount,
                since_round: existing.since_round,
                unbonding_at: 0,
            },
            None => StakeRecord {
                address: address.to_owned(),
                amount,
                since_round: current_round,
                unbonding_at: 0,
            },
        };
        self.stakes.insert(address.to_owned(), record);
        Ok(())
    }

    /// Starts the unbonding of `address`, which may withdraw from the returned round on.
    pub fn begin_unstake(&mut self, address: &str, current_round: u64) -> (r: Result<u64, StakingError>)
        requires
            old(self).wf(),
            current_round + UNSTAKE_DELAY_ROUNDS <= u64::MAX,
        ensures
            final(self).wf(),
            r is Err ==> final(self).stakes() == old(self).stakes(),
            match r {
                Err(StakingError::NoStake) => !old(self).stakes().contains_key(address@),
                Err(StakingError::AlreadyUnbonding) => old(self).stakes().contains_key(address@)
                    && old(self).stakes()[address@].unbonding_at > 0,
                Err(_) => false,
                Ok(unlock) => {
                    let o = old(self).stakes()[address@];
                    &&& old(self).stakes().contains_key(address@) && o.unbonding_at == 0
                    &&& unlock == current_round + UNSTAKE_DELAY_ROUNDS
                    &&& final(self).stakes() == old(self).stakes().insert(address@, StakeRecord {
                            address: o.address, amount: o.amount, since_round: o.since_round, unbonding_at: unlock })
                },
            },
    {
        let rec = match self.stakes.get(address) {
            Some(r) => r,
            None => return Err(StakingError::NoStake),
        };
        if rec.unbonding_at > 0 {
            return Err(StakingError::AlreadyUnbonding);
        }
        let unlock_round = current_round + UNSTAKE_DELAY_ROUNDS;
        let updated = StakeRecord {
            address: rec.address.clone(),
            amount: rec.amount,
            since_round: rec.since_round,
            unbonding_at: unlock_round,
        };
        self.stakes.insert(address.to_owned(), updated);
        Ok(unlock_round)
    }

    /// Ends the unbonding of `address` once its round has come, removing the
    /// stake and returning its amount.
    pub fn complete_unstake(&mut self, address: &str, current_round: u64) -> (r: Result<u64, StakingError>)
        requires
            old(self).wf(),
        ensures
            final(self).wf(),
            r is Err ==> final(self).stakes() == old(self).stakes(),
            ({
                let found = old(self).stakes().contains_key(address@);
                let o = old(self).stakes()[address@];
                match r {
                    Err(StakingError::NoStake) => !found,
                    Err(StakingError::NotUnbonding) => found && o.unbonding_at == 0,
                    Err(StakingError::StillUnbonding) => found && o.unbonding_at > 0 && current_round < o.unbonding_at,
                    Err(_) => false,
                    Ok(amount) => found && o.unbonding_at > 0 && current_round >= o.unbonding_at
                        && amount == o.amount
                        && final(self).stakes() == old(self).stakes().remove(address@),
                }
            }),
    {
        let rec = match self.stakes.get(address) {
            Some(r) => r,
            None => return Err(StakingError::NoStake),
        };
        if rec.unbonding_at == 0 {
            return Err(StakingError::NotUnbonding);
        }
        if current_round < rec.unbonding_at {
            return Err(StakingError::StillUnbonding);
        }
        let amount = rec.amount;
        let ghost old_self = *self;
        self.stakes.remove(address);
        proof {
            assert forall|k: Seq<char>| #[trigger] self.stakes@.contains_key(k) implies self.stakes@[k].address@ == k by {
                assert(old_self.stakes@.contains_key(k));
            }
        }
        Ok(amount)
    }

    /// Active validators: stakes of at least `MIN_STAKE` that are not unbonding, in order.
    pub fn active_validators(&self) -> (v: Vec<StakeRecord>)
        requires
            self.wf(),
        ensures
            v@ == active_of(self.records()),
    {
        let keys = self.stakes.sorted_keys();
        let ghost order = ascending_keys(self.stakes@.dom());
        let n = keys.len();
        let mut v: Vec<StakeRecord> = Vec::new();
        let mut i: usize = 0;
        proof {
            assert forall|j: int| 0 <= j < n implies self.stakes@.contains_key(#[trigger] order[j]) by {
                assert(string_views(keys@)[j] == order[j]);
                assert(string_views(keys@).to_set().contains(order[j]));
            }
        }
        while i < n
            invariant
                self.wf(),
                order == ascending_keys(self.stakes@.dom()),
                string_views(keys@) == order,
                n == keys@.len(),
                n == self.records().len(),
                forall|j: int| 0 <= j < n ==> self.stakes@.contains_key(#[trigger] order[j]),
                i <= n,
                v@ == active_of(self.records().subrange(0, i as int)),
            decreases n - i,
        {
            assert(keys@[i as int]@ == order[i as int]);
            let r = match self.stakes.get(keys[i].as_str()) {
                Some(r) => r,
                None => {
                    proof { assert(false); }
                    return v;
                },
            };
            assert(self.records()[i as int] == *r);
            proof {
                let s = self.records();
                assert(s.subrange(0, i + 1).drop_last() =~= s.subrange(0, i as int));
                reveal_with_fuel(Seq::<_>::filter, 1);
            }
            if r.amount >= MIN_STAKE && r.unbonding_at == 0 {
                v.push(r.clone());
            }
            proof {
                let s = self.records();
                assert(s.subrange(0, i + 1).last() == *r);
            }
            i = i + 1;
        }
        assert(self.records().subrange(0, n as int) =~= self.records());
        v
    }

    /// Splits `fee_pool` among the active validators in proportion to their
    /// stakes, rounding each share down and leaving out shares of zero.
    pub fn distribute_fees(&self, fee_pool: u64) -> (v: Vec<(String, u64)>)
        requires
            self.wf(),
            total_amount(active_of(self.records())) <= u64::MAX,
        ensures
            ({
                let vs = active_of(self.records());
                let t = total_amount(vs);
                if fee_pool == 0 || vs.len() == 0 || t == 0 {
                    v@.len() == 0
                } else {
                    &&& v@.len() == rewards_of(vs, fee_pool, t).len()
                    &&& forall|i: int| 0 <= i < v@.len() ==> (#[trigger] v@[i]).0@ == rewards_of(vs, fee_pool, t)[i].0
                            && v@[i].1 == rewards_of(vs, fee_pool, t)[i].1
                }
            }),
    {
        if fee_pool == 0 {
            return Vec::new();
        }
        let validators = self.active_validators();
        if validators.len() == 0 {
            return Vec::new();
        }
        let ghost vs = validators@;
        let n = validators.len();
        let mut total: u64 = 0;
        let mut i: usize = 0;
        proof { lemma_total_amount_nonneg(vs); }
        while i < n
            invariant
                n == vs.len(),
                vs == validators@,
                i <= n,
                total == total_amount(vs.subrange(0, i as int)),
                total_amount(vs) <= u64::MAX,
            decreases n - i,
        {
            proof {
                assert(vs.subrange(0, i + 1).drop_last() =~= vs.subrange(0, i as int));
                lemma_total_prefix(vs, i as int + 1);
            }
            total = total + validators[i].amount;
            i = i + 1;
        }
        assert(vs.subrange(0, n as int) =~= vs);
        if total == 0 {
            return Vec::new();
        }
        let mut rewards: Vec<(String, u64)> = Vec::new();
        let mut j: usize = 0;
        while j < n
            invariant
                n == vs.len(),
                vs == validators@,
                total == total_amount(vs),
                total > 0,
                j <= n,
                rewards@.len() == rewards_of(vs.subrange(0, j as int), fee_pool, total as int).len(),
                forall|q: int| 0 <= q < rewards@.len() ==>
                    (#[trigger] rewards@[q]).0@ == rewards_of(vs.subrange(0, j as int), fee_pool, total as int)[q].0
                    && rewards@[q].1 == rewards_of(vs.subrange(0, j as int), fee_pool, total as int)[q].1,
            decreases n - j,
        {
            let amount = validators[j].amount;
            proof {
                assert(vs.subrange(0, j + 1).drop_last() =~= vs.subrange(0, j as int));
                assert(vs.subrange(0, j + 1).last() == vs[j as int]);
                lemma_total_prefix(vs, j as int + 1);
                lemma_member_le_total(vs, j as int);
                assert((fee_pool as int) * (amount as int) <= u64::MAX as int * u64::MAX as int) by (nonlinear_arith)
                    requires fee_pool <= u64::MAX, amount <= u64::MAX;
                assert((fee_pool as int) * (amount as int) <= (fee_pool as int) * (total as int)) by (nonlinear_arith)
                    requires amount <= total, fee_pool >= 0;
                vstd::arithmetic::div_mod::lemma_div_is_ordered((fee_pool as int) * (amount as int), (fee_pool as int) * (total as int), total as int);
                vstd::arithmetic::div_mod::lemma_div_multiples_vanish(fee_pool as int, total as int);
                assert((fee_pool as int) * (total as int) == (total as int) * (fee_pool as int)) by (nonlinear_arith);
            }
            let share = (fee_pool as u128 * amount as u128 / total as u128) as u64;
            let ghost before = rewards@;
            if share > 0 {
                rewards.push((validators[j].address.clone(), share));
            }
            proof {
                let pre = rewards_of(vs.subrange(0, j as int), fee_pool, total as int);
                let post = rewards_of(vs.subrange(0, j + 1), fee_pool, total as int);
                if share > 0 {
                    assert(post =~= pre + seq![(vs[j as int].address@, share as int)]);
                } else {
                    assert(post =~= pre);
                }
            }
            j = j + 1;
        }
        assert(vs.subrange(0, n as int) =~= vs);
        rewards
    }

    /// Total active stake, number of active validators and the minimum stake.
    pub fn stats(&self) -> (st: StakingStats)
        requires
            self.wf(),
            total_amount(active_of(self.records())) <= u64::MAX,
        ensures
            st.total_staked == total_amount(active_of(self.records())),
            st.validator_count == active_of(self.records()).len(),
            st.min_stake == MIN_STAKE,
    {
        let validators = self.active_validators();
        let ghost vs = validators@;
        let n = validators.len();
        let mut total: u64 = 0;
        let mut i: usize = 0;
        proof { lemma_total_amount_nonneg(vs); }
        while i < n
            invariant
                n == vs.len(),
                vs == validators@,
                i <= n,
                total == total_amount(vs.subrange(0, i as int)),
                total_amount(vs) <= u64::MAX,
            decreases n - i,
        {
            proof {
                assert(vs.subrange(0, i + 1).drop_last() =~= vs.subrange(0, i as int));
                lemma_total_prefix(vs, i as int + 1);
            }
            total = total + validators[i].amount;
            i = i + 1;
        }
        assert(vs.subrange(0, n as int) =~= vs);
        StakingStats { total_staked: total, validator_count: n, min_stake: MIN_STAKE }
    }
}

proof fn lemma_total_prefix(s: Seq<StakeRecord>, i: int)
    requires
        0 <= i <= s.len(),
    ensures
        total_amount(s.subrange(0, i)) <= total_amount(s),
    decreases s.len() - i,
{
    if i < s.len() {
        lemma_total_prefix(s, i + 1);
        let t = s.subrange(0, i + 1);
        assert(t.drop_last() =~= s.subrange(0, i));
    } else {
        assert(s.subrange(0, i) =~= s);
    }
}

proof fn lemma_member_le_total(s: Seq<StakeRecord>, i: int)
    requires
        0 <= i < s.len(),
    ensures
        s[i].amount <= total_amount(s),
    decreases s.len(),
{
    lemma_total_amount_nonneg(s.drop_last());
    if i < s.len() - 1 {
        lemma_member_le_total(s.drop_last(), i);
    }
}

} // verus!
