//! On-chain governance: proposals, stake-weighted votes and their outcome
//! once the voting period has closed.

use vstd::prelude::*;
use crate::codec::{decimal, decimal_text, lemma_decimal_injective};
use crate::strmap::{ascending, ascending_keys, lemma_str_order, string_views, StrMap};

verus! {

/// Rounds during which a proposal accepts votes.
pub const VOTING_PERIOD_ROUNDS: u64 = 100;

/// Share of the total stake, in percent, that must vote for a proposal to pass.
pub const QUORUM_PERCENT: u64 = 10;

/// The parameter a proposal changes.
pub enum GovernanceParam {
    MinFee,
    HalvingInterval,
    MinStake,
    FeeBurnPercent,
    UnstakeDelay,
    Custom(String),
}

impl Clone for GovernanceParam {
    fn clone(&self) -> (r: Self)
        ensures
            r == *self,
    {
        match self {
            GovernanceParam::MinFee => GovernanceParam::MinFee,
            GovernanceParam::HalvingInterval => GovernanceParam::HalvingInterval,
            GovernanceParam::MinStake => GovernanceParam::MinStake,
            GovernanceParam::FeeBurnPercent => GovernanceParam::FeeBurnPercent,
            GovernanceParam::UnstakeDelay => GovernanceParam::UnstakeDelay,
            GovernanceParam::Custom(s) => GovernanceParam::Custom(s.clone()),
        }
    }
}

pub struct Proposal {
    pub id: u64,
    pub proposer: String,
    pub title: String,
    pub description: String,
    pub param: GovernanceParam,
    pub new_value: u64,
    /// Stake that voted for.
    pub votes_for: u64,
    /// Stake that voted against.
    pub votes_against: u64,
    pub created_round: u64,
    pub voting_end_round: u64,
    pub executed: bool,
    pub passed: bool,
    /// Addresses that voted, each once.
    pub voters: Vec<String>,
}

/// Why a vote was refused.
#[derive(Clone, Copy, Debug, PartialEq, Eq, Structural)]
pub enum GovernanceError {
    NotFound,
    VotingClosed,
    AlreadyExecuted,
    AlreadyVoted,
    NoStake,
}

/// Whether `voter` is among `voters`.
pub open spec fn has_voted(voters: Seq<String>, voter: Seq<char>) -> bool {
    exists|i: int| 0 <= i < voters.len() && (#[trigger] voters[i])@ == voter
}

/// A proposal as a value, its voters by their names.
pub struct ProposalView {
    pub id: u64,
    pub proposer: Seq<char>,
    pub title: Seq<char>,
    pub description: Seq<char>,
    pub param: GovernanceParam,
    pub new_value: u64,
    pub votes_for: u64,
    pub votes_against: u64,
    pub created_round: u64,
    pub voting_end_round: u64,
    pub executed: bool,
    pub passed: bool,
    pub voters: Seq<Seq<char>>,
}

impl View for Proposal {
    type V = ProposalView;

    open spec fn view(&self) -> ProposalView {
        ProposalView {
            id: self.id,
            proposer: self.proposer@,
            title: self.title@,
            description: self.description@,
            param: self.param,
            new_value: self.new_value,
            votes_for: self.votes_for,
            votes_against: self.votes_against,
            created_round: self.created_round,
            voting_end_round: self.voting_end_round,
            executed: self.executed,
            passed: self.passed,
            voters: self.voters@.map_values(|s: String| s@),
        }
    }
}

impl Clone for Proposal {
    fn clone(&self) -> (r: Self)
        ensures
            r@ == self@,
    {
        let voters = self.voters.clone();
        proof {
            assert forall|i: int| 0 <= i < voters@.len() implies voters@[i]@ == self.voters@[i]@ by {
                assert(cloned::<String>(self.voters[i], voters[i]));
            }
            assert(voters@.map_values(|s: String| s@) =~= self.voters@.map_values(|s: String| s@));
        }
        Proposal {
            id: self.id,
            proposer: self.proposer.clone(),
            title: self.title.clone(),
            description: self.description.clone(),
            param: self.param.clone(),
            new_value: self.new_value,
            votes_for: self.votes_for,
            votes_against: self.votes_against,
            created_round: self.created_round,
            voting_end_round: self.voting_end_round,
            executed: self.executed,
            passed: self.passed,
            voters,
        }
    }
}

/// A closed proposal passes when the votes cast reach the quorum and the
/// votes for outnumber those against.
pub open spec fn passes(p: ProposalView, total_staked: u64) -> bool {
    let total_votes = p.votes_for + p.votes_against;
    let quorum = total_staked * QUORUM_PERCENT / 100;
    total_votes >= quorum && p.votes_for > p.votes_against
}

/// Finalizing at `round` closes exactly the open proposals whose voting has
/// ended, and marks one passed only when the votes cast reach a tenth
/// (`QUORUM_PERCENT`) of the stake, rounded down, and the votes for outnumber
/// those against; everything else about the proposal stays.
pub proof fn lemma_finalize_needs_quorum(p: ProposalView, round: u64, total_staked: u64)
    ensures
        ({
            let f = finalized(p, round, total_staked);
            let closes = !p.executed && round > p.voting_end_round;
            &&& closes ==> f.executed
            &&& closes ==> (f.passed <==> (p.votes_for + p.votes_against >= total_staked * 10 / 100
                    && p.votes_for > p.votes_against))
            &&& !closes ==> f == p
            &&& f.votes_for == p.votes_for && f.votes_against == p.votes_against
            &&& f.voting_end_round == p.voting_end_round
        }),
{
}

/// Outcome of finalizing `p` at `round`.
pub open spec fn finalized(p: ProposalView, round: u64, total_staked: u64) -> ProposalView {
    if !p.executed && round > p.voting_end_round {
        ProposalView { executed: true, passed: passes(p, total_staked), ..p }
    } else {
        p
    }
}

/// Decimal texts of the ids 1 to `n`.
pub open spec fn id_texts(n: nat) -> Set<Seq<char>> {
    Set::new(|t: Seq<char>| exists|i: nat| 1 <= i <= n && decimal(i) == t)
}

/// The number whose decimal text is `t`.
pub open spec fn id_of_text(t: Seq<char>) -> nat {
    choose|i: nat| decimal(i) == t
}

/// Position `x` occurs in `v`.
pub open spec fn occurs(v: Seq<usize>, x: int) -> bool {
    exists|q: int| 0 <= q < v.len() && v[q] == x
}

proof fn lemma_id_of_text(i: nat)
    ensures
        id_of_text(decimal(i)) == i,
{
    let j = id_of_text(decimal(i));
    assert(decimal(j) == decimal(i));
    lemma_decimal_injective(j, i);
}

/// Proposals numbered from 1 in the order of creation, listed by the text
/// of their ids.
pub struct GovernanceState {
    next_id: u64,
    proposals: Vec<Proposal>,
}

impl GovernanceState {
    /// Proposal `i` has id `i + 1`.
    pub closed spec fn wf(self) -> bool {
        &&& self.next_id == self.proposals@.len() + 1
        &&& forall|i: int| 0 <= i < self.proposals@.len() ==> (#[trigger] self.proposals@[i]).id == i + 1
    }

    /// The proposals, the one with id `i` at position `i - 1`.
    pub closed spec fn proposals(self) -> Seq<ProposalView> {
        self.proposals@.map_values(|p: Proposal| p@)
    }

    /// The proposals as they are listed: by the text of their ids, so
    /// "10" comes between "1" and "2".
    pub open spec fn listing(self) -> Seq<ProposalView> {
        ascending_keys(id_texts(self.proposals().len())).map_values(|t: Seq<char>| self.proposals()[id_of_text(t) - 1])
    }

    /// Positions of the proposals in listing order.
    fn listing_positions(&self) -> (v: Vec<usize>)
        requires
            self.wf(),
        ensures
            v@.len() == self.listing().len(),
            forall|j: int| 0 <= j < v@.len() ==> (#[trigger] v@[j]) < self.proposals().len()
                && self.listing()[j] == self.proposals()[v@[j] as int],
            forall|a: int, b: int| 0 <= a < b < v@.len() ==> v@[a] != v@[b],
            forall|x: int| 0 <= x < self.proposals().len() ==> #[trigger] occurs(v@, x),
    {
        let n = self.proposals.len();
        let ghost len = self.proposals().len();
        let mut m: StrMap<usize> = StrMap::new();
        let mut i: usize = 0;
        while i < n
            invariant
                self.wf(),
                n == self.proposals@.len(),
                len == n,
                i <= n,
                m.wf(),
                forall|t: Seq<char>| #[trigger] m@.contains_key(t) <==> exists|k: nat| 1 <= k <= i && decimal(k) == t,
                forall|t: Seq<char>| #[trigger] m@.contains_key(t) ==> m@[t] < i && decimal((m@[t] + 1) as nat) == t,
            decreases n - i,
        {
            let text = decimal_text((i + 1) as u64);
            let ghost t = text@;
            proof {
                if m@.contains_key(t) {
                    let k = choose|k: nat| 1 <= k <= i && decimal(k) == t;
                    lemma_decimal_injective(k, (i + 1) as nat);
                }
            }
            m.insert(text, i);
            proof {
                assert forall|u: Seq<char>| #[trigger] m@.contains_key(u) <==> exists|k: nat| 1 <= k <= i + 1 && decimal(k) == u by {
                    if u == t {
                        assert(decimal((i + 1) as nat) == u);
                    }
                    if exists|k: nat| 1 <= k <= i + 1 && decimal(k) == u {
                        let k = choose|k: nat| 1 <= k <= i + 1 && decimal(k) == u;
                        if k <= i {
                            assert(exists|k2: nat| 1 <= k2 <= i && decimal(k2) == u);
                        }
                    }
                }
            }
            i = i + 1;
        }
        proof {
            assert forall|t: Seq<char>| m@.dom().contains(t) <==> id_texts(len).contains(t) by {
                if m@.contains_key(t) {
                    let k = choose|k: nat| 1 <= k <= i && decimal(k) == t;
                    assert(1 <= k <= len && decimal(k) == t);
                }
                if id_texts(len).contains(t) {
                    let k = choose|k: nat| 1 <= k <= len && decimal(k) == t;
                    assert(1 <= k <= i && decimal(k) == t);
                }
            }
            assert(m@.dom() =~= id_texts(len));
        }
        let keys = m.sorted_keys();
        let ghost order = ascending_keys(id_texts(len));
        let nk = keys.len();
        let mut v: Vec<usize> = Vec::new();
        let mut j: usize = 0;
        while j < nk
            invariant
                self.wf(),
                len == self.proposals().len(),
                m.wf(),
                forall|t: Seq<char>| #[trigger] m@.contains_key(t) ==> m@[t] < len && decimal((m@[t] + 1) as nat) == t,
                m@.dom() == id_texts(len),
                order == ascending_keys(id_texts(len)),
                string_views(keys@) == order,
                ascending(order),
                order.to_set() == id_texts(len),
                nk == keys@.len(),
                j <= nk,
                v@.len() == j,
                forall|q: int| 0 <= q < j ==> (#[trigger] v@[q]) < len && decimal((v@[q] + 1) as nat) == order[q],
            decreases nk - j,
        {
            assert(keys@[j as int]@ == order[j as int]);
            assert(order.to_set().contains(order[j as int]));
            let pos = match m.get(keys[j].as_str()) {
                Some(p) => *p,
                None => {
                    proof { assert(false); }
                    return v;
                },
            };
            v.push(pos);
            j = j + 1;
        }
        proof {
            assert forall|q: int| 0 <= q < v@.len() implies (#[trigger] v@[q]) < self.proposals().len()
                && self.listing()[q] == self.proposals()[v@[q] as int] by {
                lemma_id_of_text((v@[q] + 1) as nat);
            }
            assert forall|a: int, b: int| 0 <= a < b < v@.len() implies v@[a] != v@[b] by {
                lemma_str_order(order[a], order[a], order[a]);
            }
            assert forall|x: int| 0 <= x < self.proposals().len() implies #[trigger] occurs(v@, x) by {
                let t = decimal((x + 1) as nat);
                assert(id_texts(len).contains(t));
                let q = choose|q: int| 0 <= q < order.len() && order[q] == t;
                lemma_decimal_injective((v@[q] + 1) as nat, (x + 1) as nat);
                assert(v@[q] == x);
                assert(occurs(v@, x));
            }
        }
        v
    }

    /// No proposals.
    pub fn new() -> (g: Self)
        ensures
            g.wf(),
            g.proposals() == Seq::<ProposalView>::empty(),
    {
        let g = GovernanceState { next_id: 1, proposals: Vec::new() };
        assert(g.proposals() =~= Seq::<ProposalView>::empty());
        g
    }

    /// Takes the next proposal id.
    fn next_id(&mut self) -> (id: u64)
        requires
            old(self).next_id < u64::MAX,
        ensures
            id == old(self).next_id,
            final(self).next_id == old(self).next_id + 1,
            final(self).proposals == old(self).proposals,
    {
        let id = self.next_id;
        self.next_id = self.next_id + 1;
        id
    }

    /// Opens a proposal at `current_round` whose vote ends `VOTING_PERIOD_ROUNDS` later; returns its id.
    pub fn create_proposal(&mut self, proposer: String, title: String, description: String,
        param: GovernanceParam, new_value: u64, current_round: u64) -> (id: u64)
        requires
            old(self).wf(),
            current_round + VOTING_PERIOD_ROUNDS <= u64::MAX,
            old(self).proposals().len() + 2 <= u64::MAX,
        ensures
            final(self).wf(),
            id == old(self).proposals().len() + 1,
            final(self).proposals() == old(self).proposals().push(ProposalView {
                id, proposer: proposer@, title: title@, description: description@, param, new_value,
                votes_for: 0, votes_against: 0, created_round: current_round,
                voting_end_round: (current_round + VOTING_PERIOD_ROUNDS) as u64,
                executed: false, passed: false, voters: Seq::empty() }),
    {
        let id = self.next_id();
        let p = Proposal {
            id, proposer, title, description, param, new_value,
            votes_for: 0, votes_against: 0, created_round: current_round,
            voting_end_round: current_round + VOTING_PERIOD_ROUNDS,
            executed: false, passed: false, voters: Vec::new(),
        };
        let ghost pv = p@;
        assert(pv.voters =~= Seq::<Seq<char>>::empty());
        let ghost old_props = self.proposals();
        self.proposals.push(p);
        assert(self.proposals() =~= old_props.push(pv));
        id
    }

    /// The proposal with id `id`.
    pub fn get(&self, id: u64) -> (r: Option<Proposal>)
        requires
            self.wf(),
        ensures
            r is Some <==> 1 <= id <= self.proposals().len(),
            r matches Some(p) ==> p@ == self.proposals()[id - 1],
    {
        if id >= 1 && id <= self.proposals.len() as u64 {
            Some(self.proposals[(id - 1) as usize].clone())
        } else {
            None
        }
    }

    /// All proposals, in listing order.
    pub fn list(&self) -> (v: Vec<Proposal>)
        requires
            self.wf(),
        ensures
            v@.map_values(|p: Proposal| p@) == self.listing(),
    {
        let pos = self.listing_positions();
        let n = pos.len();
        let mut v: Vec<Proposal> = Vec::new();
        let mut j: usize = 0;
        while j < n
            invariant
                self.wf(),
                n == pos@.len(),
                n == self.listing().len(),
                forall|q: int| 0 <= q < n ==> (#[trigger] pos@[q]) < self.proposals().len()
                    && self.listing()[q] == self.proposals()[pos@[q] as int],
                j <= n,
                v@.len() == j,
                forall|q: int| 0 <= q < j ==> (#[trigger] v@[q])@ == self.listing()[q],
            decreases n - j,
        {
            let k = pos[j];
            assert(self.proposals@[k as int]@ == self.proposals()[k as int]);
            v.push(self.proposals[k].clone());
            j = j + 1;
        }
        assert(v@.map_values(|p: Proposal| p@) =~= self.listing());
        v
    }

    /// Proposals still open for voting at `current_round`, in listing order.
    pub fn active(&self, current_round: u64) -> (v: Vec<Proposal>)
        requires
            self.wf(),
        ensures
            v@.map_values(|p: Proposal| p@) == self.listing().filter(
                |p: ProposalView| !p.executed && current_round <= p.voting_end_round),
    {
        let all = self.list();
        let ghost lst = self.listing();
        let n = all.len();
        let mut v: Vec<Proposal> = Vec::new();
        let mut i: usize = 0;
        let ghost f = |p: ProposalView| !p.executed && current_round <= p.voting_end_round;
        while i < n
            invariant
                n == all@.len(),
                all@.map_values(|p: Proposal| p@) == lst,
                i <= n,
                f == (|p: ProposalView| !p.executed && current_round <= p.voting_end_round),
                v@.map_values(|p: Proposal| p@) == lst.subrange(0, i as int).filter(f),
            decreases n - i,
        {
            let p = &all[i];
            proof {
                assert(lst[i as int] == p@);
                assert(lst.subrange(0, i + 1).drop_last() =~= lst.subrange(0, i as int));
                assert(lst.subrange(0, i + 1).last() == p@);
                reveal_with_fuel(Seq::<_>::filter, 1);
            }
            let ghost before = v@.map_values(|p: Proposal| p@);
            if !p.executed && current_round <= p.voting_end_round {
                v.push(p.clone());
                assert(v@.map_values(|p: Proposal| p@) =~= before.push(p@));
            }
            i = i + 1;
        }
        assert(lst.subrange(0, n as int) =~= lst);
        v
    }

    /// Records the vote of `voter` with weight `stake_weight` on proposal `proposal_id`.
    pub fn vote(&mut self, proposal_id: u64, voter: &str, vote_for: bool, stake_weight: u64, current_round: u64) -> (r: Result<(), GovernanceError>)
        requires
            old(self).wf(),
        ensures
            final(self).wf(),
            r is Err ==> final(self).proposals() == old(self).proposals(),
            ({
                let found = 1 <= proposal_id <= old(self).proposals().len();
                let p = old(self).proposals()[proposal_id - 1];
                match r {
                    Err(GovernanceError::NotFound) => !found,
                    Err(GovernanceError::VotingClosed) => found && current_round > p.voting_end_round,
                    Err(GovernanceError::AlreadyExecuted) => found && current_round <= p.voting_end_round && p.executed,
                    Err(GovernanceError::AlreadyVoted) => found && current_round <= p.voting_end_round && !p.executed
                        && p.voters.contains(voter@),
                    Err(GovernanceError::NoStake) => found && current_round <= p.voting_end_round && !p.executed
                        && !p.voters.contains(voter@) && stake_weight == 0,
                    Ok(()) => found && current_round <= p.voting_end_round && !p.executed
                        && !p.voters.contains(voter@) && stake_weight > 0
                        && final(self).proposals() == old(self).proposals().update(proposal_id - 1, ProposalView {
                            voters: p.voters.push(voter@),
                            votes_for: if vote_for { sat_add(p.votes_for, stake_weight) } else { p.votes_for },
                            votes_against: if vote_for { p.votes_against } else { sat_add(p.votes_against, stake_weight) },
                            ..p }),
                }
            }),
    {
        if proposal_id == 0 || proposal_id > self.proposals.len() as u64 {
            return Err(GovernanceError::NotFound);
        }
        let idx = (proposal_id - 1) as usize;
        let p = &self.proposals[idx];
        if current_round > p.voting_end_round {
            return Err(GovernanceError::VotingClosed);
        }
        if p.executed {
            return Err(GovernanceError::AlreadyExecuted);
        }
        let voter_s = voter.to_owned();
        let nv = p.voters.len();
        let mut k: usize = 0;
        #[verifier::loop_isolation(false)]
        while k < nv
            invariant
                nv == p.voters@.len(),
                voter_s@ == voter@,
                k <= nv,
                forall|q: int| 0 <= q < k ==> (#[trigger] p.voters@[q])@ != voter@,
            decreases nv - k,
        {
            if p.voters[k] == voter_s {
                proof {
                    assert(p@.voters[k as int] == voter@);
                }
                return Err(GovernanceError::AlreadyVoted);
            }
            k = k + 1;
        }
        proof {
            if p@.voters.contains(voter@) {
                let q = choose|q: int| 0 <= q < p@.voters.len() && p@.voters[q] == voter@;
                assert(p.voters@[q]@ == voter@);
            }
        }
        if stake_weight == 0 {
            return Err(GovernanceError::NoStake);
        }
        let mut np = p.clone();
        let ghost pv = p@;
        let ghost np_before = np@;
        np.voters.push(voter_s);
        if vote_for {
            np.votes_for = np.votes_for.saturating_add(stake_weight);
        } else {
            np.votes_against = np.votes_against.saturating_add(stake_weight);
        }
        assert(np@.voters =~= pv.voters.push(voter@));
        let ghost old_props = self.proposals();
        self.proposals.set(idx, np);
        assert(self.proposals() =~= old_props.update(idx as int, np@));
        Ok(())
    }

    /// Closes every proposal whose vote has ended and is not yet executed,
    /// deciding whether it passed, and returns those closed now, in listing
    /// order.
    pub fn finalize_expired(&mut self, current_round: u64, total_staked: u64) -> (v: Vec<Proposal>)
        requires
            old(self).wf(),
            total_staked * QUORUM_PERCENT <= u64::MAX,
            forall|i: int| 0 <= i < old(self).proposals().len() ==>
                (#[trigger] old(self).proposals()[i]).votes_for + old(self).proposals()[i].votes_against <= u64::MAX,
        ensures
            final(self).wf(),
            final(self).proposals().len() == old(self).proposals().len(),
            forall|i: int| 0 <= i < old(self).proposals().len() ==>
                #[trigger] final(self).proposals()[i] == finalized(old(self).proposals()[i], current_round, total_staked),
            v@.map_values(|p: Proposal| p@) == old(self).listing().filter(
                |p: ProposalView| !p.executed && current_round > p.voting_end_round).map_values(
                |p: ProposalView| finalized(p, current_round, total_staked)),
    {
        let pos = self.listing_positions();
        let ghost orig = self.proposals();
        let ghost lst = self.listing();
        let n = pos.len();
        let ghost f = |p: ProposalView| !p.executed && current_round > p.voting_end_round;
        let ghost g = |p: ProposalView| finalized(p, current_round, total_staked);
        let mut out: Vec<Proposal> = Vec::new();
        let mut j: usize = 0;
        while j < n
            invariant
                self.wf(),
                orig.len() == self.proposals().len(),
                n == pos@.len(),
                n == lst.len(),
                forall|q: int| 0 <= q < n ==> (#[trigger] pos@[q]) < orig.len() && lst[q] == orig[pos@[q] as int],
                forall|a: int, b: int| 0 <= a < b < n ==> pos@[a] != pos@[b],
                forall|x: int| 0 <= x < orig.len() ==> #[trigger] occurs(pos@, x),
                j <= n,
                total_staked * QUORUM_PERCENT <= u64::MAX,
                forall|x: int| 0 <= x < orig.len() ==> (#[trigger] orig[x]).votes_for + orig[x].votes_against <= u64::MAX,
                forall|x: int| 0 <= x < orig.len() ==> #[trigger] self.proposals()[x] == if occurs(pos@.take(j as int), x) {
                    finalized(orig[x], current_round, total_staked)
                } else {
                    orig[x]
                },
                f == (|p: ProposalView| !p.executed && current_round > p.voting_end_round),
                g == (|p: ProposalView| finalized(p, current_round, total_staked)),
                out@.map_values(|p: Proposal| p@) == lst.subrange(0, j as int).filter(f).map_values(g),
            decreases n - j,
        {
            let i = pos[j];
            proof {
                if occurs(pos@.take(j as int), i as int) {
                    let q = choose|q: int| 0 <= q < pos@.take(j as int).len() && pos@.take(j as int)[q] == i;
                    assert(pos@[q] != pos@[j as int]);
                }
            }
            let p = &self.proposals[i];
            assert(self.proposals()[i as int] == p@);
            assert(p@ == orig[i as int]);
            assert(lst[j as int] == p@);
            proof {
                assert(lst.subrange(0, j + 1).drop_last() =~= lst.subrange(0, j as int));
                assert(lst.subrange(0, j + 1).last() == lst[j as int]);
                reveal_with_fuel(Seq::<_>::filter, 1);
            }
            let ghost before = out@.map_values(|p: Proposal| p@);
            let ghost props_before = self.proposals();
            if !p.executed && current_round > p.voting_end_round {
                let mut np = p.clone();
                let total_votes = np.votes_for + np.votes_against;
                let quorum = total_staked * QUORUM_PERCENT / 100;
                np.passed = total_votes >= quorum && np.votes_for > np.votes_against;
                np.executed = true;
                let keep = np.clone();
                self.proposals.set(i, np);
                assert(self.proposals() =~= props_before.update(i as int, keep@));
                out.push(keep);
                proof {
                    let fl = lst.subrange(0, j as int).filter(f);
                    let fl2 = lst.subrange(0, j + 1).filter(f);
                    assert(fl2 =~= fl.push(lst[j as int]));
                    assert(fl2.map_values(g) =~= fl.map_values(g).push(g(lst[j as int])));
                    assert(out@.map_values(|p: Proposal| p@) =~= before.push(keep@));
                }
            } else {
                proof {
                    let fl = lst.subrange(0, j as int).filter(f);
                    let fl2 = lst.subrange(0, j + 1).filter(f);
                    assert(fl2 =~= fl);
                    assert(finalized(orig[i as int], current_round, total_staked) == orig[i as int]);
                }
            }
            proof {
                assert forall|x: int| 0 <= x < orig.len() implies #[trigger] self.proposals()[x] == if occurs(pos@.take(j + 1), x) {
                    finalized(orig[x], current_round, total_staked)
                } else {
                    orig[x]
                } by {
                    let t0 = pos@.take(j as int);
                    let t1 = pos@.take(j + 1);
                    if x == i {
                        assert(t1[j as int] == x);
                        assert(occurs(t1, x));
                    } else {
                        assert(self.proposals()[x] == props_before[x]);
                        if occurs(t1, x) {
                            let q = choose|q: int| 0 <= q < t1.len() && t1[q] == x;
                            assert(q < j);
                            assert(t0[q] == x);
                            assert(occurs(t0, x));
                        }
                        if occurs(t0, x) {
                            let q = choose|q: int| 0 <= q < t0.len() && t0[q] == x;
                            assert(t1[q] == x);
                            assert(occurs(t1, x));
                        }
                    }
                }
            }
            j = j + 1;
        }
        proof {
            assert(pos@.take(n as int) =~= pos@);
            assert forall|x: int| 0 <= x < orig.len() implies #[trigger] self.proposals()[x] == finalized(orig[x], current_round, total_staked) by {
                assert(occurs(pos@, x));
            }
            assert(lst.subrange(0, n as int) =~= lst);
        }
        out
    }
}

/// Saturating sum of two counters.
pub open spec fn sat_add(a: u64, b: u64) -> u64 {
    if a + b > u64::MAX { u64::MAX } else { (a + b) as u64 }
}

/// A voter whose vote was taken cannot vote again on the same proposal.
pub proof fn lemma_no_double_vote(before: ProposalView, after: ProposalView, voter: Seq<char>)
    requires
        after.voters == before.voters.push(voter),
    ensures
        after.voters.contains(voter),
{
    assert(after.voters[before.voters.len() as int] == voter);
}

} // verus!
