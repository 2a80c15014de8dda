//! The native RF ledger: accounts, the validation and application of
//! transfers, the fee pool, stakes registered by transfer, and the
//! transaction history.

use vstd::prelude::*;
use crate::codec::signing_bytes;
use crate::chain::{clone_bytes,
    Transaction, TxView, tx_views, CHAIN_ID, FEE_POOL_ADDRESS, GENESIS_ADDRESS, GENESIS_BALANCE,
    MIN_FEE, MIN_STAKE, STAKE_ADDRESS,
};
use crate::crypto::Verifier;
use crate::dex::{listed_pool_ids, DexError, DexState, LiquidityPool, LpPosition, SwapDirection, position_key, PAIR_TOKENS};
use crate::outside::{hex_decode, hex_decoded, mldsa65_accepts, unix_now_secs};
use crate::strmap::{ascending_keys, string_views, StrMap};
use crate::tokens::{TokenError, TokenLedger, credit_result, debit_result, after_credit, after_debit};

verus! {

/// An account of native RF.
pub struct Account {
    pub address: String,
    pub balance: u64,
    pub nonce: u64,
}

impl Clone for Account {
    fn clone(&self) -> (r: Self)
        ensures
            r == *self,
    {
        Account { address: self.address.clone(), balance: self.balance, nonce: self.nonce }
    }
}

/// Balance and nonce of an account.
pub struct Funds {
    pub balance: u64,
    pub nonce: u64,
}

/// Counters of the ledger.
pub struct StateStats {
    pub account_count: usize,
    pub tx_count: usize,
    pub fee_pool_balance: u64,
}

/// Why a transaction was refused.
#[derive(Clone, Copy, Debug, PartialEq, Eq, Structural)]
pub enum TxError {
    WrongChain,
    FeeTooLow,
    SelfTransfer,
    EmptyAddress,
    BadSignature,
    BadNonce,
    InsufficientBalance,
    /// Applying the transaction would overflow a nonce, a stake or the
    /// transaction counter.
    Overflow,
}

/// The ledger as a value.
pub struct LedgerView {
    pub accounts: Map<Seq<char>, Funds>,
    pub stakes: Map<Seq<char>, u64>,
    pub history: Seq<TxView>,
    pub tx_count: u64,
}

/// Funds of `address`, zero for an unknown account.
pub open spec fn funds_of(accounts: Map<Seq<char>, Funds>, address: Seq<char>) -> Funds {
    if accounts.contains_key(address) { accounts[address] } else { Funds { balance: 0, nonce: 0 } }
}

/// Stake registered for `address`, 0 when none.
pub open spec fn stake_of(stakes: Map<Seq<char>, u64>, address: Seq<char>) -> u64 {
    if stakes.contains_key(address) { stakes[address] } else { 0 }
}

/// Saturating sum.
pub open spec fn sat_add(a: u64, b: u64) -> u64 {
    if a + b > u64::MAX { u64::MAX } else { (a + b) as u64 }
}

pub open spec fn is_genesis_tx(tx: TxView) -> bool {
    tx.sender == GENESIS_ADDRESS@
}

/// Transactions whose signature is not checked: genesis credits alone.
pub open spec fn signature_exempt(tx: TxView) -> bool {
    is_genesis_tx(tx)
}

/// Public key the signature is checked against: the sender's address read as
/// hexadecimal, empty when it is not.
pub open spec fn signer_key(tx: TxView) -> Seq<u8> {
    match hex_decoded(tx.sender) {
        Some(b) => b,
        None => Seq::empty(),
    }
}

/// Whether the ledger `v` accepts `tx`; its signature must cover its
/// signing message.
pub open spec fn check_tx(v: LedgerView, tx: TxView) -> Result<(), TxError> {
    let gen = is_genesis_tx(tx);
    let s = funds_of(v.accounts, tx.sender);
    if tx.chain_id != CHAIN_ID && !gen {
        Err(TxError::WrongChain)
    } else if !gen && tx.fee < MIN_FEE {
        Err(TxError::FeeTooLow)
    } else if !gen && tx.sender == tx.receiver {
        Err(TxError::SelfTransfer)
    } else if !gen && (tx.sender.len() == 0 || tx.receiver.len() == 0) {
        Err(TxError::EmptyAddress)
    } else if !signature_exempt(tx) && !mldsa65_accepts(signer_key(tx), signing_bytes(tx), tx.signature) {
        Err(TxError::BadSignature)
    } else if !gen && tx.nonce != s.nonce {
        Err(TxError::BadNonce)
    } else if !gen && s.balance < sat_add(tx.amount, tx.fee) {
        Err(TxError::InsufficientBalance)
    } else {
        Ok(())
    }
}

/// Position at which a transaction stamped `ts` joins the history: after
/// the trailing run of entries stamped later than `ts`.
pub open spec fn history_slot(h: Seq<TxView>, ts: u64) -> int
    decreases h.len(),
{
    if h.len() == 0 {
        0
    } else if h.last().timestamp <= ts {
        h.len() as int
    } else {
        history_slot(h.drop_last(), ts)
    }
}

/// The ledger after an accepted `tx`. The fee pool is credited first, then
/// the sender and the receiver are written from the balances read before;
/// a later write to the same account replaces an earlier one.
pub open spec fn apply_effects(v: LedgerView, tx: TxView) -> LedgerView {
    let gen = is_genesis_tx(tx);
    let s = funds_of(v.accounts, tx.sender);
    let r = funds_of(v.accounts, tx.receiver);
    let pool = funds_of(v.accounts, FEE_POOL_ADDRESS@);
    let total = sat_add(tx.amount, tx.fee);
    let s2 = Funds { balance: if gen { s.balance } else { (s.balance - total) as u64 }, nonce: (s.nonce + 1) as u64 };
    let r2 = Funds { balance: sat_add(r.balance, tx.amount), nonce: r.nonce };
    let m1 = if tx.fee > 0 {
        v.accounts.insert(FEE_POOL_ADDRESS@, Funds { balance: sat_add(pool.balance, tx.fee), nonce: pool.nonce })
    } else {
        v.accounts
    };
    let stakes = if tx.receiver == STAKE_ADDRESS@ && tx.amount >= MIN_STAKE {
        v.stakes.insert(tx.sender, (stake_of(v.stakes, tx.sender) + tx.amount) as u64)
    } else {
        v.stakes
    };
    LedgerView {
        accounts: m1.insert(tx.sender, s2).insert(tx.receiver, r2),
        stakes,
        history: v.history.insert(history_slot(v.history, tx.timestamp), tx),
        tx_count: (v.tx_count + 1) as u64,
    }
}

/// Applying an accepted `tx` to `v` would overflow a nonce, a stake or the
/// transaction counter.
pub open spec fn apply_overflows(v: LedgerView, tx: TxView) -> bool {
    ||| funds_of(v.accounts, tx.sender).nonce == u64::MAX
    ||| (tx.receiver == STAKE_ADDRESS@ && tx.amount >= MIN_STAKE && stake_of(v.stakes, tx.sender) + tx.amount > u64::MAX)
    ||| v.tx_count == u64::MAX
}

/// The ledger and the answer after `tx` is submitted to `v`.
pub open spec fn apply_tx(v: LedgerView, tx: TxView) -> (LedgerView, Result<(), TxError>) {
    match check_tx(v, tx) {
        Ok(()) => (apply_effects(v, tx), Ok(())),
        Err(e) => (v, Err(e)),
    }
}

/// The ledger and the answers after `txs` are applied in order.
pub open spec fn apply_all(v: LedgerView, txs: Seq<TxView>) -> (LedgerView, Seq<Result<(), TxError>>)
    decreases txs.len(),
{
    if txs.len() == 0 {
        (v, Seq::empty())
    } else {
        let (v1, rs) = apply_all(v, txs.drop_last());
        let (v2, r) = apply_tx(v1, txs.last());
        (v2, rs.push(r))
    }
}

/// No transaction of `txs` overflows when they are applied in order.
pub open spec fn apply_all_safe(v: LedgerView, txs: Seq<TxView>) -> bool
    decreases txs.len(),
{
    if txs.len() == 0 {
        true
    } else {
        let v1 = apply_all(v, txs.drop_last()).0;
        &&& apply_all_safe(v, txs.drop_last())
        &&& (check_tx(v1, txs.last()) is Ok ==> !apply_overflows(v1, txs.last()))
    }
}

/// The ledger after `tx` is applied by `apply_checked`: unchanged when it
/// would overflow, else as `apply_tx` leaves it.
pub open spec fn apply_checked_view(v: LedgerView, tx: TxView) -> LedgerView {
    if apply_overflows(v, tx) { v } else { apply_tx(v, tx).0 }
}

/// The ledger after `txs` are applied in order by `apply_checked`.
pub open spec fn apply_checked_all(v: LedgerView, txs: Seq<TxView>) -> LedgerView
    decreases txs.len(),
{
    if txs.len() == 0 {
        v
    } else {
        apply_checked_view(apply_checked_all(v, txs.drop_last()), txs.last())
    }
}

/// Staking by transfer: once a transfer of at least `MIN_STAKE` to
/// `STAKE_ADDRESS` is accepted, the sender's registered stake is its
/// previous stake (0 if none) plus the amount, and nobody else's stake
/// changes; any other accepted or refused transaction leaves every stake as
/// it was. So repeated stake transfers accumulate.
pub proof fn lemma_stake_accumulates(v: LedgerView, tx: TxView)
    requires
        !apply_overflows(v, tx),
    ensures
        ({
            let w = apply_tx(v, tx).0;
            let staking = apply_tx(v, tx).1 is Ok && tx.receiver == STAKE_ADDRESS@ && tx.amount >= MIN_STAKE;
            &&& staking ==> stake_of(w.stakes, tx.sender) == stake_of(v.stakes, tx.sender) + tx.amount
            &&& forall|a: Seq<char>| a != tx.sender || !staking ==> #[trigger] stake_of(w.stakes, a) == stake_of(v.stakes, a)
        }),
{
}

/// Two accepted stake transfers by the same sender add up.
pub proof fn lemma_two_stakes_add(v: LedgerView, t1: TxView, t2: TxView)
    requires
        !apply_overflows(v, t1),
        !apply_overflows(apply_tx(v, t1).0, t2),
        apply_tx(v, t1).1 is Ok,
        apply_tx(apply_tx(v, t1).0, t2).1 is Ok,
        t1.sender == t2.sender,
        t1.receiver == STAKE_ADDRESS@ && t1.amount >= MIN_STAKE,
        t2.receiver == STAKE_ADDRESS@ && t2.amount >= MIN_STAKE,
    ensures
        stake_of(apply_tx(apply_tx(v, t1).0, t2).0.stakes, t1.sender) == stake_of(v.stakes, t1.sender) + t1.amount + t2.amount,
{
    lemma_stake_accumulates(v, t1);
    lemma_stake_accumulates(apply_tx(v, t1).0, t2);
}

/// Applying `a` then `b` is applying `a + b`.
pub proof fn lemma_apply_checked_concat(v: LedgerView, a: Seq<TxView>, b: Seq<TxView>)
    ensures
        apply_checked_all(v, a + b) == apply_checked_all(apply_checked_all(v, a), b),
    decreases b.len(),
{
    if b.len() == 0 {
        assert(a + b =~= a);
    } else {
        lemma_apply_checked_concat(v, a, b.drop_last());
        assert((a + b).drop_last() =~= a + b.drop_last());
        assert((a + b).last() == b.last());
    }
}

/// Applying a batch is applying its parts one after the other: the ledger
/// after `a + b` is the ledger after `b` applied to the ledger after `a`, and
/// the answers are those of `a` followed by those of `b`.
pub proof fn lemma_apply_all_concat(v: LedgerView, a: Seq<TxView>, b: Seq<TxView>)
    ensures
        apply_all(v, a + b).0 == apply_all(apply_all(v, a).0, b).0,
        apply_all(v, a + b).1 == apply_all(v, a).1 + apply_all(apply_all(v, a).0, b).1,
    decreases b.len(),
{
    if b.len() == 0 {
        assert(a + b =~= a);
        assert(apply_all(v, a).1 + apply_all(apply_all(v, a).0, b).1 =~= apply_all(v, a).1);
    } else {
        lemma_apply_all_concat(v, a, b.drop_last());
        assert((a + b).drop_last() =~= a + b.drop_last());
        assert((a + b).last() == b.last());
        let va = apply_all(v, a).0;
        let (v1, rs1) = apply_all(va, b.drop_last());
        let (v2, r) = apply_tx(v1, b.last());
        assert(apply_all(va, b).1 == rs1.push(r));
        assert(apply_all(v, a).1 + rs1.push(r) =~= (apply_all(v, a).1 + rs1).push(r));
    }
}

/// Applying one transaction as a batch of one is `apply_tx`.
pub proof fn lemma_apply_all_single(v: LedgerView, tx: TxView)
    ensures
        apply_all(v, seq![tx]) == (apply_tx(v, tx).0, seq![apply_tx(v, tx).1]),
{
    let e = Seq::<TxView>::empty();
    assert(seq![tx].drop_last() =~= e);
    assert(seq![tx].last() == tx);
    assert(apply_all(v, e) == (v, Seq::<Result<(), TxError>>::empty()));
    assert(Seq::<Result<(), TxError>>::empty().push(apply_tx(v, tx).1) =~= seq![apply_tx(v, tx).1]);
    assert(apply_all(v, seq![tx]).1 =~= seq![apply_tx(v, tx).1]);
}

proof fn lemma_safe_prefix(v: LedgerView, txs: Seq<TxView>, j: int)
    requires
        apply_all_safe(v, txs),
        0 <= j <= txs.len(),
    ensures
        apply_all_safe(v, txs.subrange(0, j)),
    decreases txs.len() - j,
{
    if j == txs.len() {
        assert(txs.subrange(0, j) =~= txs);
    } else {
        lemma_safe_prefix(v, txs, j + 1);
        let t = txs.subrange(0, j + 1);
        assert(t.drop_last() =~= txs.subrange(0, j));
    }
}

/// A refused transaction leaves the ledger as it was.
pub proof fn lemma_refused_changes_nothing(v: LedgerView, tx: TxView)
    requires
        apply_tx(v, tx).1 is Err,
    ensures
        apply_tx(v, tx).0 == v,
{
}

/// An accepted ordinary transfer between two accounts other than the fee
/// pool moves exactly `amount + fee` out of the sender, `amount` into the
/// receiver and `fee` into the fee pool, and bumps the sender's nonce, when no
/// balance saturates: RF is neither created nor destroyed.
pub proof fn lemma_transfer_conserves(v: LedgerView, tx: TxView)
    requires
        check_tx(v, tx) is Ok,
        !is_genesis_tx(tx),
        tx.sender != FEE_POOL_ADDRESS@,
        tx.receiver != FEE_POOL_ADDRESS@,
        funds_of(v.accounts, tx.receiver).balance + tx.amount <= u64::MAX,
        funds_of(v.accounts, FEE_POOL_ADDRESS@).balance + tx.fee <= u64::MAX,
        tx.amount + tx.fee <= u64::MAX,
        !apply_overflows(v, tx),
    ensures
        ({
            let w = apply_tx(v, tx).0;
            let s0 = funds_of(v.accounts, tx.sender);
            let r0 = funds_of(v.accounts, tx.receiver);
            let p0 = funds_of(v.accounts, FEE_POOL_ADDRESS@);
            &&& funds_of(w.accounts, tx.sender).balance == s0.balance - tx.amount - tx.fee
            &&& funds_of(w.accounts, tx.sender).nonce == s0.nonce + 1
            &&& funds_of(w.accounts, tx.receiver).balance == r0.balance + tx.amount
            &&& funds_of(w.accounts, FEE_POOL_ADDRESS@).balance == p0.balance + tx.fee
            &&& forall|a: Seq<char>| a != tx.sender && a != tx.receiver && a != FEE_POOL_ADDRESS@
                    ==> #[trigger] funds_of(w.accounts, a) == funds_of(v.accounts, a)
        }),
{
    let w = apply_tx(v, tx).0;
    assert(w == apply_effects(v, tx));
    assert(tx.sender != tx.receiver);
    assert(sat_add(tx.amount, tx.fee) == tx.amount + tx.fee);
    let pool = funds_of(v.accounts, FEE_POOL_ADDRESS@);
    assert(tx.fee >= MIN_FEE);
    assert forall|a: Seq<char>| a != tx.sender && a != tx.receiver && a != FEE_POOL_ADDRESS@
        implies #[trigger] funds_of(w.accounts, a) == funds_of(v.accounts, a) by {
        assert(w.accounts.contains_key(a) == v.accounts.contains_key(a));
    }
}

/// A transaction whose nonce was accepted cannot be accepted again: once it
/// has been applied, the sender's nonce has moved past it.
pub proof fn lemma_no_replay(v: LedgerView, tx: TxView)
    requires
        check_tx(v, tx) is Ok,
        !is_genesis_tx(tx),
        tx.sender != FEE_POOL_ADDRESS@,
        funds_of(v.accounts, tx.sender).nonce < u64::MAX,
    ensures
        check_tx(apply_tx(v, tx).0, tx) == Err::<(), TxError>(TxError::BadNonce),
{
    let w = apply_tx(v, tx).0;
    assert(funds_of(w.accounts, tx.sender).nonce == funds_of(v.accounts, tx.sender).nonce + 1);
}

/// Entries are in nondecreasing order of timestamp.
pub open spec fn stamped_in_order(h: Seq<TxView>) -> bool {
    forall|i: int, j: int| 0 <= i < j < h.len() ==> #[trigger] h[i].timestamp <= #[trigger] h[j].timestamp
}

/// A transaction involves `address` when it sends from or to it.
pub open spec fn involves(tx: TxView, address: Seq<char>) -> bool {
    tx.sender == address || tx.receiver == address
}

/// Transactions of `h` that involve `address`, newest first.
pub open spec fn history_of(h: Seq<TxView>, address: Seq<char>) -> Seq<TxView>
    decreases h.len(),
{
    if h.len() == 0 {
        Seq::empty()
    } else {
        (if involves(h.last(), address) { seq![h.last()] } else { Seq::empty() }) + history_of(h.drop_last(), address)
    }
}

proof fn lemma_history_split(h: Seq<TxView>, i: int, a: Seq<char>)
    requires
        0 <= i <= h.len(),
    ensures
        history_of(h, a) == history_of(h.subrange(i, h.len() as int), a) + history_of(h.subrange(0, i), a),
    decreases h.len(),
{
    if i == h.len() {
        assert(h.subrange(i, h.len() as int) =~= Seq::<TxView>::empty());
        assert(h.subrange(0, i) =~= h);
        assert(history_of(h, a) =~= Seq::<TxView>::empty() + history_of(h, a));
    } else {
        lemma_history_split(h.drop_last(), i, a);
        assert(h.drop_last().subrange(0, i) =~= h.subrange(0, i));
        let t = h.subrange(i, h.len() as int);
        assert(t.drop_last() =~= h.drop_last().subrange(i, h.len() - 1));
        assert(t.last() == h.last());
        assert(history_of(h, a) =~= history_of(t, a) + history_of(h.subrange(0, i), a));
    }
}

/// Inserting a transaction at its slot keeps the history in timestamp order.
pub proof fn lemma_slot_keeps_order(h: Seq<TxView>, tx: TxView)
    requires
        stamped_in_order(h),
    ensures
        stamped_in_order(h.insert(history_slot(h, tx.timestamp), tx)),
        0 <= history_slot(h, tx.timestamp) <= h.len(),
    decreases h.len(),
{
    let p = history_slot(h, tx.timestamp);
    if h.len() > 0 {
        if h.last().timestamp > tx.timestamp {
            lemma_slot_keeps_order(h.drop_last(), tx);
            let g = h.drop_last().insert(p, tx);
            assert(h.insert(p, tx) =~= g.push(h.last()));
            assert forall|i: int, j: int| 0 <= i < j < g.len() + 1 implies
                #[trigger] g.push(h.last())[i].timestamp <= #[trigger] g.push(h.last())[j].timestamp by {
                if j == g.len() {
                    if i == p {
                    } else if i < p {
                        assert(g[i] == h[i]);
                    } else {
                        assert(g[i] == h[i - 1]);
                    }
                } else {
                    assert(g.push(h.last())[i] == g[i]);
                    assert(g.push(h.last())[j] == g[j]);
                }
            }
        } else {
            assert(h.insert(p, tx) =~= h.push(tx));
        }
    }
}

/// The chain state: the native ledger, the exchange and the wrapped tokens.
/// Receiver that marks a transaction as the deployment of its data.
pub const DEPLOY_RECEIVER: &'static str = "DEPLOY";

/// Function of a contract that a transaction with data runs.
pub const CONTRACT_ENTRY: &'static str = "main";

/// Gas a transaction's contract call may burn.
pub const CONTRACT_CALL_GAS: u64 = 1_000_000;

/// Contract work that an applied transaction with data asks of the VM.
pub enum ContractAction {
    /// Deploy `code` (which also carries the contract's ABI) for `deployer` at `nonce`.
    Deploy { code: Vec<u8>, deployer: String, nonce: u64 },
    /// Run `CONTRACT_ENTRY` of the contract at `contract` on `input`, from `caller`.
    Call { contract: String, input: Vec<u8>, caller: String },
}

/// A `ContractAction` as a mathematical value.
pub enum ContractActionView {
    Deploy { code: Seq<u8>, deployer: Seq<char>, nonce: u64 },
    Call { contract: Seq<char>, input: Seq<u8>, caller: Seq<char> },
}

impl View for ContractAction {
    type V = ContractActionView;

    open spec fn view(&self) -> ContractActionView {
        match self {
            ContractAction::Deploy { code, deployer, nonce } =>
                ContractActionView::Deploy { code: code@, deployer: deployer@, nonce: *nonce },
            ContractAction::Call { contract, input, caller } =>
                ContractActionView::Call { contract: contract@, input: input@, caller: caller@ },
        }
    }
}

/// Views of a list of contract actions.
pub open spec fn action_views(v: Seq<ContractAction>) -> Seq<ContractActionView> {
    v.map_values(|a: ContractAction| a@)
}

/// The contract work `tx` asks for once applied: none without data; the
/// deployment of its data by its sender at its nonce when it is sent to
/// `DEPLOY_RECEIVER`; otherwise a call of the contract at its receiver on
/// its data, from its sender.
pub open spec fn contract_action_of(tx: TxView) -> Option<ContractActionView> {
    if tx.data.len() == 0 {
        None
    } else if tx.receiver == DEPLOY_RECEIVER@ {
        Some(ContractActionView::Deploy { code: tx.data, deployer: tx.sender, nonce: tx.nonce })
    } else {
        Some(ContractActionView::Call { contract: tx.receiver, input: tx.data, caller: tx.sender })
    }
}

/// The contract queue after `tx` was answered `r`.
pub open spec fn queue_after(q: Seq<ContractActionView>, tx: TxView, r: Result<(), TxError>) -> Seq<ContractActionView> {
    match (r, contract_action_of(tx)) {
        (Ok(()), Some(a)) => q.push(a),
        _ => q,
    }
}

/// The contract work that applying `txs` in order to `v` asks for, oldest
/// first: one action for each accepted transaction with data.
pub open spec fn queued_actions(v: LedgerView, txs: Seq<TxView>) -> Seq<ContractActionView>
    decreases txs.len(),
{
    if txs.len() == 0 {
        Seq::empty()
    } else {
        let v1 = apply_all(v, txs.drop_last()).0;
        queue_after(queued_actions(v, txs.drop_last()), txs.last(), apply_tx(v1, txs.last()).1)
    }
}

pub struct StateDB {
    accounts: StrMap<Account>,
    stakes: StrMap<u64>,
    history: Vec<Transaction>,
    tx_count: u64,
    pub dex: DexState,
    pub tokens: TokenLedger,
    contract_queue: Vec<ContractAction>,
}

impl StateDB {
    pub closed spec fn wf(self) -> bool {
        &&& self.accounts.wf()
        &&& self.stakes.wf()
        &&& forall|k: Seq<char>| #[trigger] self.accounts@.contains_key(k) ==> self.accounts@[k].address@ == k
        &&& stamped_in_order(tx_views(self.history@))
        &&& self.dex.wf()
        &&& self.tokens.wf()
    }

    /// The native ledger as a value.
    pub closed spec fn view(self) -> LedgerView {
        LedgerView {
            accounts: Map::new(
                |k: Seq<char>| self.accounts@.contains_key(k),
                |k: Seq<char>| Funds { balance: self.accounts@[k].balance, nonce: self.accounts@[k].nonce },
            ),
            stakes: self.stakes@,
            history: tx_views(self.history@),
            tx_count: self.tx_count,
        }
    }

    /// The exchange.
    pub closed spec fn dex_state(self) -> DexState {
        self.dex
    }

    /// The wrapped-token ledger.
    pub closed spec fn token_state(self) -> TokenLedger {
        self.tokens
    }

    /// Addresses of the stakers, in ascending text order.
    pub open spec fn staker_order(self) -> Seq<Seq<char>> {
        ascending_keys(self@.stakes.dom())
    }

    /// Number of accounts.
    pub closed spec fn account_count(self) -> nat {
        self.accounts.key_seq().len()
    }

    proof fn lemma_account_insert(self, other: Self, a: Account)
        requires
            self.accounts.wf(),
            other.accounts@ == self.accounts@.insert(a.address@, a),
        ensures
            other@.accounts == self@.accounts.insert(a.address@, Funds { balance: a.balance, nonce: a.nonce }),
    {
        assert(other@.accounts =~= self@.accounts.insert(a.address@, Funds { balance: a.balance, nonce: a.nonce }));
    }

    fn funds(&self, address: &str) -> (f: (u64, u64))
        requires
            self.wf(),
        ensures
            f.0 == funds_of(self@.accounts, address@).balance,
            f.1 == funds_of(self@.accounts, address@).nonce,
    {
        match self.accounts.get(address) {
            Some(a) => (a.balance, a.nonce),
            None => (0, 0),
        }
    }

    fn put_account(&mut self, a: Account)
        requires
            old(self).wf(),
        ensures
            final(self).wf(),
            final(self)@ == (LedgerView {
                accounts: old(self)@.accounts.insert(a.address@, Funds { balance: a.balance, nonce: a.nonce }),
                ..old(self)@ }),
            final(self).dex_state() == old(self).dex_state(),
            final(self).token_state() == old(self).token_state(),
            final(self).staker_order() == old(self).staker_order(),
            final(self).contract_queue() == old(self).contract_queue(),
    {
        let ghost before = *self;
        let key = a.address.clone();
        self.accounts.insert(key, a);
        proof {
            before.lemma_account_insert(*self, a);
            assert forall|k: Seq<char>| #[trigger] self.accounts@.contains_key(k) implies self.accounts@[k].address@ == k by {
                if k != a.address@ {
                    assert(before.accounts@.contains_key(k));
                }
            }
            assert(self@ =~= (LedgerView {
                accounts: before@.accounts.insert(a.address@, Funds { balance: a.balance, nonce: a.nonce }),
                ..before@ }));
        }
    }

    /// Opens the genesis account with `GENESIS_BALANCE` and the empty fee
    /// pool, unless the genesis account exists.
    fn ensure_genesis(&mut self)
        requires
            old(self).wf(),
        ensures
            final(self).wf(),
            final(self).dex_state() == old(self).dex_state(),
            final(self).token_state() == old(self).token_state(),
            final(self)@ == if old(self)@.accounts.contains_key(GENESIS_ADDRESS@) {
                old(self)@
            } else {
                LedgerView {
                    accounts: old(self)@.accounts
                        .insert(GENESIS_ADDRESS@, Funds { balance: GENESIS_BALANCE, nonce: 0 })
                        .insert(FEE_POOL_ADDRESS@, Funds { balance: 0, nonce: 0 }),
                    ..old(self)@ }
            },
    {
        if !self.accounts.contains_key(GENESIS_ADDRESS) {
            self.put_account(Account { address: GENESIS_ADDRESS.to_owned(), balance: GENESIS_BALANCE, nonce: 0 });
            self.put_account(Account { address: FEE_POOL_ADDRESS.to_owned(), balance: 0, nonce: 0 });
        }
    }

    /// Opens the exchange pools of `PAIR_TOKENS` that do not exist, stamped
    /// `now`.
    fn ensure_dex_pools(&mut self, now: u64)
        requires
            old(self).wf(),
        ensures
            final(self).wf(),
            final(self)@ == old(self)@,
            final(self).token_state() == old(self).token_state(),
            final(self).dex_state().pools().dom() == old(self).dex_state().pools().dom() + listed_pool_ids(9),
    {
        let tokens = PAIR_TOKENS;
        let ghost d0 = self.dex.pools().dom();
        let ghost v0 = self@;
        let ghost t0 = self.token_state();
        let mut j: usize = 0;
        while j < 9
            invariant
                self.wf(),
                tokens == PAIR_TOKENS,
                j <= 9,
                self@ == v0,
                self.token_state() == t0,
                self.dex.pools().dom() == d0 + listed_pool_ids(j as int),
            decreases 9 - j,
        {
            let ghost before = self.dex.pools().dom();
            let _ = self.dex.create_pool(tokens[j], now);
            proof {
                let id = crate::dex::pool_id_for(PAIR_TOKENS[j as int]@);
                assert(tokens[j as int]@ == PAIR_TOKENS[j as int]@);
                assert(self.dex.pools().dom() =~= before.insert(id));
                assert forall|k: Seq<char>| (d0 + listed_pool_ids(j + 1)).contains(k) <==> before.insert(id).contains(k) by {
                    if listed_pool_ids(j + 1).contains(k) && k != id {
                        let q = choose|q: int| 0 <= q < j + 1 && k == crate::dex::pool_id_for(#[trigger] PAIR_TOKENS[q]@);
                        assert(q != j);
                        assert(listed_pool_ids(j as int).contains(k));
                    }
                    if listed_pool_ids(j as int).contains(k) {
                        let q = choose|q: int| 0 <= q < j && k == crate::dex::pool_id_for(#[trigger] PAIR_TOKENS[q]@);
                        assert(listed_pool_ids(j + 1).contains(k));
                    }
                    if k == id {
                        assert(listed_pool_ids(j + 1).contains(k));
                    }
                }
                assert(d0 + listed_pool_ids(j + 1) =~= before.insert(id));
            }
            j = j + 1;
        }
    }

    /// A fresh chain: the genesis account with `GENESIS_BALANCE`, an empty fee
    /// pool, and an empty exchange pool for each token of `PAIR_TOKENS`.
    pub fn new() -> (s: Self)
        ensures
            s.wf(),
            s@.accounts == Map::<Seq<char>, Funds>::empty()
                .insert(GENESIS_ADDRESS@, Funds { balance: GENESIS_BALANCE, nonce: 0 })
                .insert(FEE_POOL_ADDRESS@, Funds { balance: 0, nonce: 0 }),
            s@.stakes == Map::<Seq<char>, u64>::empty(),
            s@.history == Seq::<TxView>::empty(),
            s@.tx_count == 0,
            s.dex_state().pools().dom() == listed_pool_ids(9),
            s.token_state()@.balances == Map::<Seq<char>, u64>::empty(),
            s.token_state()@.supplies == Map::<Seq<char>, u64>::empty(),
    {
        let mut s = StateDB {
            accounts: StrMap::new(),
            stakes: StrMap::new(),
            history: Vec::new(),
            tx_count: 0,
            dex: DexState::new(),
            tokens: TokenLedger::new(),
            contract_queue: Vec::new(),
        };
        proof {
            assert(s@.accounts =~= Map::<Seq<char>, Funds>::empty());
            assert(s@.history =~= Seq::<TxView>::empty());
        }
        s.ensure_genesis();
        let now = unix_now_secs();
        let ghost d0 = s.dex.pools().dom();
        s.ensure_dex_pools(now);
        proof {
            assert(d0 =~= Set::<Seq<char>>::empty());
            assert(s.dex.pools().dom() =~= listed_pool_ids(9));
        }
        s
    }

    /// Opens `address` with `amount` RF when it has no account.
    pub fn ensure_faucet(&mut self, address: &str, amount: u64)
        requires
            old(self).wf(),
        ensures
            final(self).wf(),
            final(self).dex_state() == old(self).dex_state(),
            final(self).token_state() == old(self).token_state(),
            final(self)@ == if old(self)@.accounts.contains_key(address@) {
                old(self)@
            } else {
                LedgerView {
                    accounts: old(self)@.accounts.insert(address@, Funds { balance: amount, nonce: 0 }),
                    ..old(self)@ }
            },
    {
        if !self.accounts.contains_key(address) {
            self.put_account(Account { address: address.to_owned(), balance: amount, nonce: 0 });
        }
    }

    /// RF balance of `address` (0 without an account).
    pub fn get_balance(&self, address: &str) -> (b: u64)
        requires
            self.wf(),
        ensures
            b == funds_of(self@.accounts, address@).balance,
    {
        self.funds(address).0
    }

    /// Number of transactions applied so far.
    pub fn history_len(&self) -> (n: usize)
        requires
            self.wf(),
        ensures
            n == self@.history.len(),
    {
        self.history.len()
    }

    /// The account of `address`.
    pub fn get_account(&self, address: &str) -> (r: Option<Account>)
        requires
            self.wf(),
        ensures
            r is Some <==> self@.accounts.contains_key(address@),
            r matches Some(a) ==> a.address@ == address@ && a.balance == self@.accounts[address@].balance
                && a.nonce == self@.accounts[address@].nonce,
    {
        match self.accounts.get(address) {
            Some(a) => Some(a.clone()),
            None => None,
        }
    }

    /// Stores `account` under its address.
    pub fn save_account_pub(&mut self, account: &Account)
        requires
            old(self).wf(),
        ensures
            final(self).wf(),
            final(self)@ == (LedgerView {
                accounts: old(self)@.accounts.insert(account.address@, Funds { balance: account.balance, nonce: account.nonce }),
                ..old(self)@ }),
            final(self).dex_state() == old(self).dex_state(),
            final(self).token_state() == old(self).token_state(),
    {
        self.put_account(account.clone());
    }

    /// Checks `tx` against the ledger and, when it is valid, applies it; the
    /// signature is checked against the transaction's signing message.
    #[verifier::rlimit(40)]
    pub fn apply_single(&mut self, tx: &Transaction) -> (r: Result<(), TxError>)
        requires
            old(self).wf(),
            check_tx(old(self)@, tx@) is Ok ==> !apply_overflows(old(self)@, tx@),
        ensures
            final(self).wf(),
            (final(self)@, r) == apply_tx(old(self)@, tx@),
            final(self).dex_state() == old(self).dex_state(),
            final(self).token_state() == old(self).token_state(),
            final(self).contract_queue() == queue_after(old(self).contract_queue(), tx@, r),
    {
        let ghost v0 = self@;
        let genesis = GENESIS_ADDRESS.to_owned();
        let is_genesis = tx.sender == genesis;
        if tx.chain_id != CHAIN_ID && !is_genesis {
            return Err(TxError::WrongChain);
        }
        if !is_genesis {
            if tx.fee < MIN_FEE {
                return Err(TxError::FeeTooLow);
            }
            if tx.sender == tx.receiver {
                return Err(TxError::SelfTransfer);
            }
            if tx.sender.as_str().is_empty() || tx.receiver.as_str().is_empty() {
                return Err(TxError::EmptyAddress);
            }
        }
        if !is_genesis {
            let pubkey = match hex_decode(tx.sender.as_str()) {
                Some(v) => v,
                None => Vec::new(),
            };
            let signing_msg = tx.signing_message();
            if Verifier::verify(pubkey.as_slice(), signing_msg.as_slice(), tx.signature.as_slice()).is_err() {
                return Err(TxError::BadSignature);
            }
        }
        let (s_bal, s_nonce) = self.funds(tx.sender.as_str());
        if !is_genesis && tx.nonce != s_nonce {
            return Err(TxError::BadNonce);
        }
        let total_cost = tx.amount.saturating_add(tx.fee);
        if !is_genesis && s_bal < total_cost {
            return Err(TxError::InsufficientBalance);
        }
        let (r_bal, r_nonce) = self.funds(tx.receiver.as_str());
        let new_s_bal = if is_genesis { s_bal } else { s_bal - total_cost };
        let new_r_bal = r_bal.saturating_add(tx.amount);
        let stake_addr = STAKE_ADDRESS.to_owned();
        let fee_pool = FEE_POOL_ADDRESS.to_owned();
        if tx.fee > 0 {
            let (p_bal, p_nonce) = self.funds(FEE_POOL_ADDRESS);
            self.put_account(Account { address: fee_pool, balance: p_bal.saturating_add(tx.fee), nonce: p_nonce });
        }
        self.put_account(Account { address: tx.sender.clone(), balance: new_s_bal, nonce: s_nonce + 1 });
        self.put_account(Account { address: tx.receiver.clone(), balance: new_r_bal, nonce: r_nonce });
        if tx.receiver == stake_addr && tx.amount >= MIN_STAKE {
            let prev = match self.stakes.get(tx.sender.as_str()) {
                Some(v) => *v,
                None => 0,
            };
            self.stakes.insert(tx.sender.clone(), prev + tx.amount);
        }
        let n = self.history.len();
        let mut p = n;
        assert(tx_views(self.history@).subrange(0, n as int) =~= tx_views(self.history@));
        while p > 0 && self.history[p - 1].timestamp > tx.timestamp
            invariant
                n == self.history@.len(),
                p <= n,
                history_slot(tx_views(self.history@), tx.timestamp)
                    == history_slot(tx_views(self.history@).subrange(0, p as int), tx.timestamp),
            decreases p,
        {
            proof {
                let h = tx_views(self.history@).subrange(0, p as int);
                assert(h.drop_last() =~= tx_views(self.history@).subrange(0, p - 1));
            }
            p = p - 1;
        }
        proof {
            let h = tx_views(self.history@).subrange(0, p as int);
            if p > 0 {
                assert(h.last() == tx_views(self.history@)[p - 1]);
            } else {
                assert(h =~= Seq::<TxView>::empty());
            }
        }
        let ghost hb = tx_views(self.history@);
        proof { lemma_slot_keeps_order(hb, tx@); }
        self.history.insert(p, tx.clone());
        self.tx_count = self.tx_count + 1;
        proof {
            assert(tx_views(self.history@) =~= hb.insert(p as int, tx@));
            assert(self@ =~= apply_effects(v0, tx@));
        }
        if tx.data.len() > 0 {
            let ghost q0 = self.contract_queue();
            let deploy_to = DEPLOY_RECEIVER.to_owned();
            let action = if tx.receiver == deploy_to {
                ContractAction::Deploy { code: clone_bytes(&tx.data), deployer: tx.sender.clone(), nonce: tx.nonce }
            } else {
                ContractAction::Call { contract: tx.receiver.clone(), input: clone_bytes(&tx.data), caller: tx.sender.clone() }
            };
            self.contract_queue.push(action);
            proof {
                assert(self.contract_queue() =~= q0.push(contract_action_of(tx@)->0));
            }
        }
        Ok(())
    }

    /// The contract work waiting for the VM, oldest first.
    pub closed spec fn contract_queue(self) -> Seq<ContractActionView> {
        action_views(self.contract_queue@)
    }

    /// Hands out the contract work waiting for the VM, oldest first, and
    /// empties the queue; nothing else changes.
    pub fn take_contract_actions(&mut self) -> (v: Vec<ContractAction>)
        requires
            old(self).wf(),
        ensures
            final(self).wf(),
            action_views(v@) == old(self).contract_queue(),
            final(self).contract_queue() == Seq::<ContractActionView>::empty(),
            final(self)@ == old(self)@,
            final(self).dex_state() == old(self).dex_state(),
            final(self).token_state() == old(self).token_state(),
    {
        let mut out: Vec<ContractAction> = Vec::new();
        std::mem::swap(&mut out, &mut self.contract_queue);
        proof {
            assert(action_views(self.contract_queue@) =~= Seq::<ContractActionView>::empty());
        }
        out
    }

    /// Like `apply_single`, but refuses with `Overflow`, changing nothing,
    /// a transaction whose application would overflow a counter.
    pub fn apply_checked(&mut self, tx: &Transaction) -> (r: Result<(), TxError>)
        requires
            old(self).wf(),
        ensures
            final(self).wf(),
            apply_overflows(old(self)@, tx@) ==> r == Err::<(), TxError>(TxError::Overflow) && *final(self) == *old(self),
            !apply_overflows(old(self)@, tx@) ==> (final(self)@, r) == apply_tx(old(self)@, tx@),
            final(self).dex_state() == old(self).dex_state(),
            final(self).token_state() == old(self).token_state(),
            final(self).contract_queue() == queue_after(old(self).contract_queue(), tx@, r),
    {
        let (_, s_nonce) = self.funds(tx.sender.as_str());
        if s_nonce == u64::MAX || self.tx_count == u64::MAX {
            return Err(TxError::Overflow);
        }
        let stake_addr = STAKE_ADDRESS.to_owned();
        if tx.receiver == stake_addr && tx.amount >= MIN_STAKE {
            let prev = match self.stakes.get(tx.sender.as_str()) {
                Some(v) => *v,
                None => 0,
            };
            if prev > u64::MAX - tx.amount {
                return Err(TxError::Overflow);
            }
        }
        self.apply_single(tx)
    }

    /// Balance of `token` held by `address` in the wrapped-token ledger.
    pub fn token_balance(&self, address: &str, token: &str) -> (b: u64)
        requires
            self.wf(),
        ensures
            b == self.token_state().balance_of(address@, token@),
    {
        self.tokens.get_balance(address, token)
    }

    /// `TokenLedger::credit` on the wrapped-token ledger.
    pub fn token_credit(&mut self, address: &str, token: &str, amount: u64) -> (r: Result<u64, TokenError>)
        requires
            old(self).wf(),
        ensures
            final(self).wf(),
            final(self)@ == old(self)@,
            final(self).dex_state() == old(self).dex_state(),
            r == credit_result(old(self).token_state()@, address@, token@, amount),
            final(self).token_state()@ == after_credit(old(self).token_state()@, address@, token@, amount),
    {
        self.tokens.credit(address, token, amount)
    }

    /// `TokenLedger::debit` on the wrapped-token ledger.
    pub fn token_debit(&mut self, address: &str, token: &str, amount: u64) -> (r: Result<u64, TokenError>)
        requires
            old(self).wf(),
        ensures
            final(self).wf(),
            final(self)@ == old(self)@,
            final(self).dex_state() == old(self).dex_state(),
            r == debit_result(old(self).token_state()@, address@, token@, amount),
            final(self).token_state()@ == after_debit(old(self).token_state()@, address@, token@, amount),
    {
        self.tokens.debit(address, token, amount)
    }

    /// The exchange pool `pool_id`.
    pub fn dex_pool(&self, pool_id: &str) -> (r: Option<LiquidityPool>)
        requires
            self.wf(),
        ensures
            r is Some <==> self.dex_state().pools().contains_key(pool_id@),
            r matches Some(p) ==> p == self.dex_state().pools()[pool_id@],
    {
        self.dex.get_pool(pool_id)
    }

    /// The position of `provider` in `pool_id`.
    pub fn dex_position(&self, provider: &str, pool_id: &str) -> (r: Option<LpPosition>)
        requires
            self.wf(),
        ensures
            r is Some <==> self.dex_state().positions().contains_key(position_key(provider@, pool_id@)),
            r matches Some(p) ==> p == self.dex_state().positions()[position_key(provider@, pool_id@)],
    {
        self.dex.get_lp_position(provider, pool_id)
    }

    /// Whether a swap on the exchange would overflow a pool counter.
    pub fn dex_swap_overflows(&self, pool_id: &str, dir: SwapDirection, amount_in: u64, min_out: u64) -> (r: bool)
        requires
            self.wf(),
        ensures
            r == self.dex_state().swap_overflows(pool_id@, dir, amount_in, min_out),
    {
        self.dex.swap_would_overflow(pool_id, dir, amount_in, min_out)
    }

    /// A swap on the exchange (see `DexState::swap_outcome`).
    pub fn dex_swap(&mut self, pool_id: &str, trader: &str, dir: SwapDirection, amount_in: u64, min_out: u64, tx_hash: &str, now: u64) -> (r: Result<u64, DexError>)
        requires
            old(self).wf(),
            !old(self).dex_state().swap_overflows(pool_id@, dir, amount_in, min_out),
        ensures
            final(self).wf(),
            final(self)@ == old(self)@,
            final(self).token_state() == old(self).token_state(),
            final(self).dex_state().swap_outcome(old(self).dex_state(), pool_id@, trader@, dir, amount_in, min_out, tx_hash@, now, r),
    {
        match dir {
            SwapDirection::RfToB => self.dex.execute_swap_rf_to_b(pool_id, trader, amount_in, min_out, tx_hash, now),
            SwapDirection::BToRf => self.dex.execute_swap_b_to_rf(pool_id, trader, amount_in, min_out, tx_hash, now),
        }
    }

    /// A deposit into the exchange (see `DexState::add_liquidity_outcome`).
    pub fn dex_add_liquidity(&mut self, pool_id: &str, provider: &str, amount_rf: u64, amount_b: u64, now: u64) -> (r: Result<u64, DexError>)
        requires
            old(self).wf(),
        ensures
            final(self).wf(),
            final(self)@ == old(self)@,
            final(self).token_state() == old(self).token_state(),
            final(self).dex_state().add_liquidity_outcome(old(self).dex_state(), pool_id@, provider@, amount_rf, amount_b, now, r),
    {
        self.dex.add_liquidity(pool_id, provider, amount_rf, amount_b, now)
    }

    /// A withdrawal from the exchange (see `DexState::remove_liquidity_outcome`).
    pub fn dex_remove_liquidity(&mut self, pool_id: &str, provider: &str, lp_tokens: u64, now: u64) -> (r: Result<(u64, u64), DexError>)
        requires
            old(self).wf(),
        ensures
            final(self).wf(),
            final(self)@ == old(self)@,
            final(self).token_state() == old(self).token_state(),
            final(self).dex_state().remove_liquidity_outcome(old(self).dex_state(), pool_id@, provider@, lp_tokens, now, r),
    {
        self.dex.remove_liquidity(pool_id, provider, lp_tokens, now)
    }

    /// Applies `txs` in order and answers for each. Any order is a schedule
    /// of the conflict-free groups of `Transaction::parallel_groups`; this one
    /// is the submission order.
    pub fn apply_transactions(&mut self, txs: &[Transaction]) -> (rs: Vec<Result<(), TxError>>)
        requires
            old(self).wf(),
            apply_all_safe(old(self)@, tx_views(txs@)),
        ensures
            final(self).wf(),
            (final(self)@, rs@) == apply_all(old(self)@, tx_views(txs@)),
            final(self).dex_state() == old(self).dex_state(),
            final(self).token_state() == old(self).token_state(),
            final(self).contract_queue() == old(self).contract_queue() + queued_actions(old(self)@, tx_views(txs@)),
    {
        let ghost v0 = self@;
        let ghost q0 = self.contract_queue();
        let ghost all_t = tx_views(txs@);
        let ghost dex0 = self.dex;
        let ghost tokens0 = self.tokens;
        let n = txs.len();
        let mut rs: Vec<Result<(), TxError>> = Vec::new();
        let mut i: usize = 0;
        while i < n
            invariant
                self.wf(),
                n == txs@.len(),
                all_t == tx_views(txs@),
                i <= n,
                apply_all_safe(v0, all_t),
                (self@, rs@) == apply_all(v0, all_t.subrange(0, i as int)),
                self.contract_queue() == q0 + queued_actions(v0, all_t.subrange(0, i as int)),
                self.dex == dex0,
                self.tokens == tokens0,
            decreases n - i,
        {
            proof {
                lemma_safe_prefix(v0, all_t, i + 1);
                let t = all_t.subrange(0, i + 1);
                assert(t.drop_last() =~= all_t.subrange(0, i as int));
                assert(t.last() == txs@[i as int]@);
            }
            let ghost qb = self.contract_queue();
            let r = self.apply_single(&txs[i]);
            proof {
                let t = all_t.subrange(0, i + 1);
                let p = queued_actions(v0, all_t.subrange(0, i as int));
                assert(queued_actions(v0, t) == queue_after(p, txs@[i as int]@, r));
                match (r, contract_action_of(txs@[i as int]@)) {
                    (Ok(()), Some(a)) => {
                        assert(q0 + p.push(a) =~= (q0 + p).push(a));
                    },
                    _ => {},
                }
            }
            rs.push(r);
            i = i + 1;
        }
        proof {
            assert(all_t.subrange(0, n as int) =~= all_t);
        }
        rs
    }

    /// Transactions from or to `address`, newest first.
    pub fn get_history(&self, address: &str) -> (v: Vec<Transaction>)
        requires
            self.wf(),
        ensures
            tx_views(v@) == history_of(self@.history, address@),
    {
        let ghost all = tx_views(self.history@);
        let key = address.to_owned();
        let n = self.history.len();
        let mut out: Vec<Transaction> = Vec::new();
        let mut i = n;
        proof { lemma_history_split(all, n as int, address@); }
        while i > 0
            invariant
                n == all.len(),
                all == tx_views(self.history@),
                key@ == address@,
                i <= n,
                tx_views(out@) == history_of(all.subrange(i as int, n as int), address@),
            decreases i,
        {
            i = i - 1;
            let t = &self.history[i];
            proof {
                let s = all.subrange(i as int, n as int);
                assert(s.drop_first() =~= all.subrange(i + 1, n as int));
                lemma_history_split(s, 1, address@);
                assert(s.subrange(1, s.len() as int) =~= s.drop_first());
                assert(s.subrange(0, 1) =~= seq![s[0]]);
                assert(seq![s[0]].drop_last() =~= Seq::<TxView>::empty());
                assert(history_of(Seq::<TxView>::empty(), address@) =~= Seq::<TxView>::empty());
                assert(s[0] == t@);
            }
            let ghost before = tx_views(out@);
            if t.sender == key || t.receiver == key {
                out.push(t.clone());
                assert(tx_views(out@) =~= before + seq![t@]);
            } else {
                assert(tx_views(out@) =~= before + Seq::<TxView>::empty());
            }
        }
        proof {
            lemma_history_split(all, 0, address@);
            assert(all.subrange(0, 0) =~= Seq::<TxView>::empty());
            assert(all.subrange(0, n as int) =~= all);
            assert(history_of(all, address@) =~= history_of(all.subrange(0, n as int), address@) + Seq::<TxView>::empty());
        }
        out
    }

    /// The `limit` most recent transactions, newest first.
    pub fn get_recent_txs(&self, limit: usize) -> (v: Vec<Transaction>)
        requires
            self.wf(),
        ensures
            tx_views(v@) == self@.history.reverse().take(
                if limit < self@.history.len() { limit as int } else { self@.history.len() as int }),
    {
        let ghost all = tx_views(self.history@);
        let n = self.history.len();
        let mut out: Vec<Transaction> = Vec::new();
        let mut i = n;
        while i > 0 && out.len() < limit
            invariant
                n == all.len(),
                all == tx_views(self.history@),
                i <= n,
                out.len() == n - i,
                out.len() <= limit,
                tx_views(out@) == all.reverse().take(n - i),
            decreases i,
        {
            i = i - 1;
            let ghost before = tx_views(out@);
            out.push(self.history[i].clone());
            assert(tx_views(out@) =~= all.reverse().take(n - i));
        }
        out
    }

    /// Stakers and their registered stakes, in ascending text order of address.
    pub fn get_stakes(&self) -> (v: Vec<(String, u64)>)
        requires
            self.wf(),
        ensures
            v@.len() == self.staker_order().len(),
            forall|i: int| 0 <= i < v@.len() ==> (#[trigger] v@[i]).0@ == self.staker_order()[i]
                && v@[i].1 == self@.stakes[self.staker_order()[i]],
    {
        let keys = self.stakes.sorted_keys();
        let ghost order = self.staker_order();
        let n = keys.len();
        let mut v: Vec<(String, u64)> = Vec::new();
        let mut i: usize = 0;
        proof {
            assert forall|j: int| 0 <= j < n implies self.stakes@.contains_key(#[trigger] order[j]) by {
                assert(string_views(keys@)[j] == order[j]);
                assert(string_views(keys@).to_set().contains(order[j]));
            }
        }
        while i < n
            invariant
                self.wf(),
                order == self.staker_order(),
                string_views(keys@) == order,
                n == keys@.len(),
                i <= n,
                v@.len() == i,
                forall|j: int| 0 <= j < n ==> self.stakes@.contains_key(#[trigger] order[j]),
                forall|j: int| 0 <= j < i ==> (#[trigger] v@[j]).0@ == order[j] && v@[j].1 == self@.stakes[order[j]],
            decreases n - i,
        {
            assert(keys@[i as int]@ == order[i as int]);
            let a = match self.stakes.get(keys[i].as_str()) {
                Some(a) => *a,
                None => {
                    proof { assert(false); }
                    return v;
                },
            };
            v.push((keys[i].clone(), a));
            i = i + 1;
        }
        v
    }

    /// Number of accounts, of applied transactions, and the fee pool's balance.
    pub fn stats(&self) -> (st: StateStats)
        requires
            self.wf(),
            self@.tx_count <= usize::MAX,
        ensures
            st.account_count == self.account_count(),
            st.tx_count == self@.tx_count,
            st.fee_pool_balance == funds_of(self@.accounts, FEE_POOL_ADDRESS@).balance,
    {
        let account_count = self.accounts.len();
        let tx_count = self.tx_count as usize;
        let fee_pool_balance = self.get_balance(FEE_POOL_ADDRESS);
        StateStats { account_count, tx_count, fee_pool_balance }
    }
}

} // verus!
