//! The price oracle: validators submit prices and each pair's price is the
//! median of its recent submissions.

use vstd::prelude::*;
use vstd::relations::{sorted_by, total_ordering};
use crate::strmap::StrMap;

verus! {

/// Pairs the oracle prices.
pub const PAIRS: [&'static str; 4] = ["RF/USD", "RF/ETH", "RF/BNB", "RF/MATIC"];

/// Rounds after which a submission no longer counts.
pub const SUBMISSION_MAX_AGE: u64 = 50;

pub struct PriceSubmission {
    pub pair: String,
    /// Price times 1_000_000.
    pub price_usd_micro: u64,
    pub validator: String,
    pub round: u64,
}

pub struct OraclePrice {
    pub pair: String,
    pub price_usd_micro: u64,
    /// Submissions that entered the median.
    pub submissions: usize,
    pub last_updated_round: u64,
}

impl Clone for OraclePrice {
    fn clone(&self) -> (r: Self)
        ensures
            r == *self,
    {
        OraclePrice {
            pair: self.pair.clone(),
            price_usd_micro: self.price_usd_micro,
            submissions: self.submissions,
            last_updated_round: self.last_updated_round,
        }
    }
}

#[derive(Clone, Copy, Debug, PartialEq, Eq, Structural)]
pub enum OracleError {
    UnsupportedPair,
}

/// The order of prices.
pub open spec fn price_le() -> spec_fn(u64, u64) -> bool {
    |a: u64, b: u64| a <= b
}

/// `pair` is one of `PAIRS`.
pub open spec fn supported_pair(pair: Seq<char>) -> bool {
    exists|i: int| 0 <= i < 4 && PAIRS[i]@ == pair
}

/// The prices of the first `k` pairs of `PAIRS` that have one, in order.
pub open spec fn priced_pairs(prices: Map<Seq<char>, OraclePrice>, k: int) -> Seq<OraclePrice>
    decreases k,
{
    if k <= 0 {
        Seq::empty()
    } else if prices.contains_key(PAIRS[k - 1]@) {
        priced_pairs(prices, k - 1).push(prices[PAIRS[k - 1]@])
    } else {
        priced_pairs(prices, k - 1)
    }
}

/// Key of a validator's submission for a pair.
pub open spec fn submission_key(pair: Seq<char>, validator: Seq<char>) -> Seq<char> {
    pair + ":"@ + validator
}

/// A submission still counts at `round`.
pub open spec fn is_recent(s: PriceSubmission, round: u64) -> bool {
    (if round >= s.round { round - s.round } else { 0 }) <= SUBMISSION_MAX_AGE
}

/// Prices of the recent submissions for `pair`, in order.
pub open spec fn recent_prices(subs: Seq<PriceSubmission>, pair: Seq<char>, round: u64) -> Seq<u64>
    decreases subs.len(),
{
    if subs.len() == 0 {
        Seq::empty()
    } else {
        let s = subs.last();
        recent_prices(subs.drop_last(), pair, round) + if s.pair@ == pair && is_recent(s, round) {
            seq![s.price_usd_micro]
        } else {
            Seq::empty()
        }
    }
}

/// Whether a submission is a recent one for `pair`.
pub open spec fn recent_for(pair: Seq<char>, round: u64) -> spec_fn(PriceSubmission) -> bool {
    |s: PriceSubmission| s.pair@ == pair && is_recent(s, round)
}

/// `price` is the price of a recent submission for `pair` among `subs`.
pub open spec fn submitted_for(subs: Seq<PriceSubmission>, pair: Seq<char>, round: u64, price: u64) -> bool {
    exists|j: int| 0 <= j < subs.len() && (#[trigger] subs[j]).pair@ == pair && is_recent(subs[j], round)
        && subs[j].price_usd_micro == price
}

/// Every price in a pair's recent prices comes from a recent submission for
/// that same pair, and every such submission gives one: the recent prices
/// are as many as those submissions.
pub proof fn lemma_recent_prices_of_pair(subs: Seq<PriceSubmission>, pair: Seq<char>, round: u64)
    ensures
        forall|i: int| 0 <= i < recent_prices(subs, pair, round).len()
            ==> submitted_for(subs, pair, round, #[trigger] recent_prices(subs, pair, round)[i]),
        recent_prices(subs, pair, round).len() == subs.filter(recent_for(pair, round)).len(),
    decreases subs.len(),
{
    if subs.len() > 0 {
        let rest = subs.drop_last();
        lemma_recent_prices_of_pair(rest, pair, round);
        let r0 = recent_prices(rest, pair, round);
        let r = recent_prices(subs, pair, round);
        let s = subs.last();
        let cond = s.pair@ == pair && is_recent(s, round);
        assert(r == r0 + if cond { seq![s.price_usd_micro] } else { Seq::<u64>::empty() });
        assert forall|i: int| 0 <= i < r.len() implies submitted_for(subs, pair, round, #[trigger] r[i]) by {
            if i < r0.len() {
                assert(r[i] == r0[i]);
                assert(submitted_for(rest, pair, round, r0[i]));
                let j = choose|j: int| 0 <= j < rest.len() && (#[trigger] rest[j]).pair@ == pair && is_recent(rest[j], round)
                    && rest[j].price_usd_micro == r0[i];
                assert(subs[j] == rest[j]);
            } else {
                assert(cond);
                assert(r[i] == s.price_usd_micro);
                assert(subs[subs.len() - 1] == s);
            }
        }
        assert(subs =~= rest.push(s));
        rest.lemma_filter_len_push(recent_for(pair, round), s);
    } else {
        subs.lemma_filter_len(recent_for(pair, round));
    }
}

/// A submission for another pair changes nothing in a pair's recent prices.
pub proof fn lemma_other_pair_ignored(subs: Seq<PriceSubmission>, s: PriceSubmission, pair: Seq<char>, round: u64)
    requires
        s.pair@ != pair,
    ensures
        recent_prices(subs.push(s), pair, round) == recent_prices(subs, pair, round),
{
    assert(subs.push(s).drop_last() =~= subs);
    assert(recent_prices(subs, pair, round) + Seq::<u64>::empty() =~= recent_prices(subs, pair, round));
}

proof fn lemma_recent_nonempty(subs: Seq<PriceSubmission>, i: int, pair: Seq<char>, round: u64)
    requires
        0 <= i < subs.len(),
        subs[i].pair@ == pair,
        is_recent(subs[i], round),
    ensures
        recent_prices(subs, pair, round).len() > 0,
    decreases subs.len(),
{
    if i < subs.len() - 1 {
        lemma_recent_nonempty(subs.drop_last(), i, pair, round);
    }
}

/// The median of `prices`: the middle element, the upper one for an even count.
pub open spec fn median(prices: Seq<u64>) -> u64 {
    prices.sort_by(price_le())[(prices.len() / 2) as int]
}

proof fn lemma_price_le_total()
    ensures
        total_ordering(price_le()),
{
}

/// Insertion sort of prices.
fn sort_prices(v: Vec<u64>) -> (r: Vec<u64>)
    ensures
        r@ == v@.sort_by(price_le()),
{
    let n = v.len();
    let mut out: Vec<u64> = Vec::new();
    let mut i: usize = 0;
    broadcast use vstd::seq_lib::group_to_multiset_ensures;
    while i < n
        invariant
            n == v@.len(),
            i <= n,
            sorted_by(out@, price_le()),
            out@.to_multiset() == v@.subrange(0, i as int).to_multiset(),
        decreases n - i,
    {
        let x = v[i];
        let m = out.len();
        let mut p: usize = 0;
        while p < m && out[p] <= x
            invariant
                m == out@.len(),
                p <= m,
                forall|q: int| 0 <= q < p ==> out@[q] <= x,
            decreases m - p,
        {
            p = p + 1;
        }
        let ghost before = out@;
        out.insert(p, x);
        proof {
            assert(out@ =~= before.subrange(0, p as int) + seq![x] + before.subrange(p as int, m as int));
            assert forall|a: int, b: int| 0 <= a < b < out@.len() implies #[trigger] (price_le())(out@[a], out@[b]) by {
                if b < p {
                } else if b == p {
                    assert(out@[a] == before[a]);
                } else if a < p {
                    assert(out@[b] == before[b - 1]);
                    assert(before[a] <= before[b - 1]) by {
                        assert((price_le())(before[a], before[b - 1]));
                    }
                } else if a == p {
                    assert(out@[b] == before[b - 1]);
                    assert(!(before[p as int] <= x));
                    assert((price_le())(before[p as int], before[b - 1]) || p == b - 1);
                } else {
                    assert((price_le())(before[a - 1], before[b - 1]));
                }
            }
            assert(out@ == before.insert(p as int, x));
            vstd::seq_lib::to_multiset_insert(before, p as int, x);
            assert(v@.subrange(0, i + 1) =~= v@.subrange(0, i as int).push(x));
            vstd::seq_lib::to_multiset_build(v@.subrange(0, i as int), x);
        }
        i = i + 1;
    }
    proof {
        assert(v@.subrange(0, n as int) =~= v@);
        lemma_price_le_total();
        v@.lemma_sort_by_ensures(price_le());
        vstd::seq_lib::lemma_sorted_unique(out@, v@.sort_by(price_le()), price_le());
    }
    out
}

/// Submissions keyed by pair and validator, and the current price of each pair.
pub struct OracleState {
    submissions: StrMap<PriceSubmission>,
    prices: StrMap<OraclePrice>,
}

impl OracleState {
    pub closed spec fn wf(self) -> bool {
        &&& self.submissions.wf()
        &&& self.prices.wf()
        &&& forall|k: Seq<char>| #[trigger] self.prices@.contains_key(k) ==> self.prices@[k].pair@ == k
    }

    /// The stored submissions, in the order in which their keys first appeared.
    pub closed spec fn submissions(self) -> Seq<PriceSubmission> {
        self.submissions.value_seq()
    }

    /// The submissions keyed by `submission_key`.
    pub closed spec fn submission_map(self) -> Map<Seq<char>, PriceSubmission> {
        self.submissions@
    }

    /// The current price of each pair that has one.
    pub closed spec fn prices(self) -> Map<Seq<char>, OraclePrice> {
        self.prices@
    }

    /// No submissions and no prices.
    pub fn new() -> (o: Self)
        ensures
            o.wf(),
            o.submission_map() == Map::<Seq<char>, PriceSubmission>::empty(),
            o.submissions() == Seq::<PriceSubmission>::empty(),
            o.prices() == Map::<Seq<char>, OraclePrice>::empty(),
    {
        let o = OracleState { submissions: StrMap::new(), prices: StrMap::new() };
        assert(o.submissions() =~= Seq::<PriceSubmission>::empty());
        o
    }

    /// Records the price of `validator` for `pair` (replacing its previous
    /// one) and sets the pair's price to the median of the recent submissions.
    pub fn submit_price(&mut self, validator: &str, pair: &str, price_usd_micro: u64, round: u64) -> (r: Result<(), OracleError>)
        requires
            old(self).wf(),
        ensures
            final(self).wf(),
            r is Err <==> !supported_pair(pair@),
            r is Err ==> final(self).submission_map() == old(self).submission_map() && final(self).prices() == old(self).prices(),
            r is Ok ==> ({
                let k = submission_key(pair@, validator@);
                let s = final(self).submission_map()[k];
                let recent = recent_prices(final(self).submissions(), pair@, round);
                let np = final(self).prices()[pair@];
                &&& final(self).submission_map() == old(self).submission_map().insert(k, s)
                &&& s.pair@ == pair@ && s.validator@ == validator@
                &&& s.price_usd_micro == price_usd_micro && s.round == round
                &&& recent.len() > 0
                &&& final(self).prices() == old(self).prices().insert(pair@, np)
                &&& np.pair@ == pair@
                &&& np.price_usd_micro == median(recent)
                &&& np.submissions == recent.len()
                &&& np.last_updated_round == round
            }),
    {
        let pairs = PAIRS;
        let mut j: usize = 0;
        let mut ok = false;
        let ps = pair.to_owned();
        while j < 4 && !ok
            invariant
                pairs == PAIRS,
                ps@ == pair@,
                j <= 4,
                ok ==> supported_pair(pair@),
                !ok ==> forall|q: int| 0 <= q < j ==> PAIRS[q]@ != pair@,
            decreases 4 - j, if ok { 0int } else { 1int },
        {
            let cand = pairs[j].to_owned();
            if cand == ps {
                ok = true;
            } else {
                j = j + 1;
            }
        }
        if !ok {
            return Err(OracleError::UnsupportedPair);
        }
        let mut key = pair.to_owned();
        key.append(":");
        key.append(validator);
        let sub = PriceSubmission {
            pair: pair.to_owned(),
            price_usd_micro,
            validator: validator.to_owned(),
            round,
        };
        let ghost k = key@;
        let ghost sv = sub;
        self.submissions.insert(key, sub);
        proof {
            self.submissions.lemma_index_of(k);
            lemma_recent_nonempty(self.submissions.value_seq(), self.submissions.index_of(k), pair@, round);
        }
        self.update_median(pair, round);
        Ok(())
    }

    fn update_median(&mut self, pair: &str, round: u64)
        requires
            old(self).wf(),
        ensures
            final(self).wf(),
            final(self).submission_map() == old(self).submission_map(),
            final(self).submissions() == old(self).submissions(),
            ({
                let recent = recent_prices(old(self).submissions(), pair@, round);
                if recent.len() == 0 {
                    final(self).prices() == old(self).prices()
                } else {
                    let np = final(self).prices()[pair@];
                    &&& final(self).prices() == old(self).prices().insert(pair@, np)
                    &&& np.pair@ == pair@
                    &&& np.price_usd_micro == median(recent)
                    &&& np.submissions == recent.len()
                    &&& np.last_updated_round == round
                }
            }),
    {
        let ps = pair.to_owned();
        let n = self.submissions.len();
        let mut prices: Vec<u64> = Vec::new();
        let mut i: usize = 0;
        while i < n
            invariant
                self.wf(),
                n == self.submissions.value_seq().len(),
                ps@ == pair@,
                i <= n,
                prices@ == recent_prices(self.submissions.value_seq().subrange(0, i as int), pair@, round),
            decreases n - i,
        {
            let s = self.submissions.value_at(i);
            proof {
                let all = self.submissions.value_seq();
                assert(all.subrange(0, i + 1).drop_last() =~= all.subrange(0, i as int));
                assert(all.subrange(0, i + 1).last() == *s);
            }
            let age = if round >= s.round { round - s.round } else { 0 };
            if s.pair == ps && age <= SUBMISSION_MAX_AGE {
                let ghost before = prices@;
                prices.push(s.price_usd_micro);
                assert(prices@ =~= before + seq![s.price_usd_micro]);
            } else {
                assert(prices@ =~= prices@ + Seq::<u64>::empty());
            }
            i = i + 1;
        }
        assert(self.submissions.value_seq().subrange(0, n as int) =~= self.submissions.value_seq());
        if prices.len() == 0 {
            return;
        }
        let count = prices.len();
        let sorted = sort_prices(prices);
        proof {
            lemma_price_le_total();
            let recent = recent_prices(self.submissions.value_seq(), pair@, round);
            recent.lemma_sort_by_ensures(price_le());
            vstd::seq_lib::to_multiset_len(recent);
            vstd::seq_lib::to_multiset_len(recent.sort_by(price_le()));
            assert(sorted@.len() == count);
        }
        let med = sorted[count / 2];
        let op = OraclePrice { pair: pair.to_owned(), price_usd_micro: med, submissions: count, last_updated_round: round };
        self.prices.insert(ps, op);
    }

    /// The current price of `pair`.
    pub fn get_price(&self, pair: &str) -> (r: Option<OraclePrice>)
        requires
            self.wf(),
        ensures
            r is Some <==> self.prices().contains_key(pair@),
            r matches Some(p) ==> p == self.prices()[pair@],
    {
        match self.prices.get(pair) {
            Some(p) => Some(p.clone()),
            None => None,
        }
    }

    /// The prices of the pairs of `PAIRS` that have one, in the order of `PAIRS`.
    pub fn all_prices(&self) -> (v: Vec<OraclePrice>)
        requires
            self.wf(),
        ensures
            v@ == priced_pairs(self.prices(), 4),
    {
        let pairs = PAIRS;
        let mut v: Vec<OraclePrice> = Vec::new();
        let mut j: usize = 0;
        while j < 4
            invariant
                self.wf(),
                pairs == PAIRS,
                j <= 4,
                v@ == priced_pairs(self.prices(), j as int),
            decreases 4 - j,
        {
            assert(pairs[j as int]@ == PAIRS[j as int]@);
            match self.get_price(pairs[j]) {
                Some(p) => {
                    v.push(p);
                },
                None => {},
            }
            j = j + 1;
        }
        v
    }
}

} // verus!
