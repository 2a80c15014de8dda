//! The bridge between RedFlag and EVM chains: its chains and events, the
//! relayer's configuration and per-chain backoff, and the relayer's
//! decisions on each event it scans. Talking to the chains is the
//! application's.

use vstd::prelude::*;
use crate::codec::{decimal, decimal_text};
use crate::outside::{blake3_digest, blake3_hash, hex_encode, hex_encoded};
use crate::text::{list_entries, list_entries_of};

verus! {

/// EVM chains the bridge serves.
#[derive(Clone, Copy, Debug, PartialEq, Eq, Structural)]
pub enum EvmChain {
    EthereumSepolia,
    BscTestnet,
    PolygonAmoy,
}

impl EvmChain {
    /// The chain's EIP-155 identifier.
    pub open spec fn chain_id_spec(self) -> u64 {
        match self {
            EvmChain::EthereumSepolia => 11155111,
            EvmChain::BscTestnet => 97,
            EvmChain::PolygonAmoy => 80002,
        }
    }

    /// The chain's EIP-155 identifier.
    pub fn chain_id(&self) -> (r: u64)
        ensures
            r == self.chain_id_spec(),
    {
        match self {
            EvmChain::EthereumSepolia => 11155111,
            EvmChain::BscTestnet => 97,
            EvmChain::PolygonAmoy => 80002,
        }
    }

    /// Display name.
    pub fn name(&self) -> (r: &'static str)
        ensures
            *self == EvmChain::EthereumSepolia ==> r@ == "Ethereum Sepolia"@,
            *self == EvmChain::BscTestnet ==> r@ == "BSC Testnet"@,
            *self == EvmChain::PolygonAmoy ==> r@ == "Polygon Amoy"@,
    {
        match self {
            EvmChain::EthereumSepolia => "Ethereum Sepolia",
            EvmChain::BscTestnet => "BSC Testnet",
            EvmChain::PolygonAmoy => "Polygon Amoy",
        }
    }

    /// Name of the environment variable that holds the chain's RPC URL.
    pub fn rpc_env_var(&self) -> (r: &'static str)
        ensures
            *self == EvmChain::EthereumSepolia ==> r@ == "ETH_SEPOLIA_RPC"@,
            *self == EvmChain::BscTestnet ==> r@ == "BSC_TESTNET_RPC"@,
            *self == EvmChain::PolygonAmoy ==> r@ == "POLYGON_AMOY_RPC"@,
    {
        match self {
            EvmChain::EthereumSepolia => "ETH_SEPOLIA_RPC",
            EvmChain::BscTestnet => "BSC_TESTNET_RPC",
            EvmChain::PolygonAmoy => "POLYGON_AMOY_RPC",
        }
    }

    /// Name of the environment variable that holds the bridge contract's address.
    pub fn contract_env_var(&self) -> (r: &'static str)
        ensures
            *self == EvmChain::EthereumSepolia ==> r@ == "ETH_SEPOLIA_BRIDGE_CONTRACT"@,
            *self == EvmChain::BscTestnet ==> r@ == "BSC_TESTNET_BRIDGE_CONTRACT"@,
            *self == EvmChain::PolygonAmoy ==> r@ == "POLYGON_AMOY_BRIDGE_CONTRACT"@,
    {
        match self {
            EvmChain::EthereumSepolia => "ETH_SEPOLIA_BRIDGE_CONTRACT",
            EvmChain::BscTestnet => "BSC_TESTNET_BRIDGE_CONTRACT",
            EvmChain::PolygonAmoy => "POLYGON_AMOY_BRIDGE_CONTRACT",
        }
    }

    /// Every chain, in declaration order.
    pub fn all() -> (r: Vec<EvmChain>)
        ensures
            r@ == seq![EvmChain::EthereumSepolia, EvmChain::BscTestnet, EvmChain::PolygonAmoy],
    {
        let r = vec![EvmChain::EthereumSepolia, EvmChain::BscTestnet, EvmChain::PolygonAmoy];
        assert(r@ =~= seq![EvmChain::EthereumSepolia, EvmChain::BscTestnet, EvmChain::PolygonAmoy]);
        r
    }

    /// The chain with identifier `chain_id`, if the bridge serves one.
    pub fn from_chain_id(chain_id: u64) -> (r: Option<EvmChain>)
        ensures
            r matches Some(c) ==> c.chain_id_spec() == chain_id,
            r is None ==> forall|c: EvmChain| c.chain_id_spec() != chain_id,
    {
        if chain_id == 11155111 {
            Some(EvmChain::EthereumSepolia)
        } else if chain_id == 97 {
            Some(EvmChain::BscTestnet)
        } else if chain_id == 80002 {
            Some(EvmChain::PolygonAmoy)
        } else {
            None
        }
    }

    /// The wrapped token that a lock on this chain mints on RedFlag.
    pub fn wrapped_token(&self) -> (r: &'static str)
        ensures
            *self == EvmChain::EthereumSepolia ==> r@ == "wETH"@,
            *self == EvmChain::BscTestnet ==> r@ == "wBNB"@,
            *self == EvmChain::PolygonAmoy ==> r@ == "wMATIC"@,
    {
        match self {
            EvmChain::EthereumSepolia => "wETH",
            EvmChain::BscTestnet => "wBNB",
            EvmChain::PolygonAmoy => "wMATIC",
        }
    }
}

/// Where a bridge event stands.
#[derive(Debug)]
pub enum BridgeEventStatus {
    Pending,
    Processing,
    Completed,
    Failed(String),
}

impl BridgeEventStatus {
    /// Whether the event is done.
    pub fn is_completed(&self) -> (r: bool)
        ensures
            r == (*self is Completed),
    {
        match self {
            BridgeEventStatus::Completed => true,
            _ => false,
        }
    }
}

/// RedFlag account that receives locked RF.
pub const BRIDGE_LOCK_ADDRESS: &'static str = "RedFlag_Bridge_Lock_v1";

/// RedFlag account that receives burned RF.
pub const BRIDGE_BURN_ADDRESS: &'static str = "RedFlag_Bridge_Burn_v1";

/// A lock on an EVM chain, to be minted on RedFlag.
pub struct EvmLockEvent {
    pub chain: EvmChain,
    pub evm_tx_hash: String,
    pub block_number: u64,
    pub from_evm_address: String,
    pub to_rf_address: String,
    pub amount: u64,
    pub nonce: u64,
    pub status: BridgeEventStatus,
    pub created_at: u64,
}

/// A lock on RedFlag, to be released on an EVM chain.
pub struct RfLockEvent {
    pub rf_tx_hash: String,
    pub from_rf_address: String,
    pub to_evm_address: String,
    pub to_chain: EvmChain,
    pub amount: u64,
    pub nonce: u64,
    pub status: BridgeEventStatus,
    pub created_at: u64,
}

/// The bridge at a glance.
pub struct BridgeSummary {
    pub chains: Vec<ChainInfo>,
    pub total_locked_rf: u64,
    pub total_evm_lock_events: usize,
    pub total_rf_lock_events: usize,
    pub pending_events: usize,
    pub completed_events: usize,
}

/// One chain, for the summary.
pub struct ChainInfo {
    pub name: String,
    pub chain_id: u64,
    pub connected: bool,
    pub contract: Option<String>,
    pub last_block: u64,
}

/// A RedFlag transaction as the node's history reports it.
pub struct RfTransaction {
    pub sender: String,
    pub receiver: String,
    pub amount: u64,
    pub fee: u64,
    pub nonce: u64,
    pub timestamp: u64,
    pub data: Vec<u8>,
}

/// What a RedFlag → EVM transfer carries in its data.
pub struct BridgeData {
    pub to_evm_address: String,
    pub to_chain_id: u64,
    pub bridge_nonce: u64,
}

/// The relayer's settings.
pub struct RelayerConfig {
    pub rf_node_url: String,
    pub bridge_private_key: String,
    pub bridge_data_dir: String,
    pub poll_interval_secs: u64,
    /// Blocks an EVM lock must be buried under before it is minted.
    pub confirmations: u64,
    /// Largest amount bridged in one event.
    pub max_amount_per_tx: u64,
}

impl RelayerConfig {
    /// Settings from the values given, each missing one at its default: the
    /// local node, no key, `./bridge_data`, a 60 s poll, 3 confirmations and
    /// 1 000 000 per event.
    pub fn from_settings(
        rf_node_url: Option<String>,
        bridge_private_key: Option<String>,
        bridge_data_dir: Option<String>,
        poll_interval_secs: Option<u64>,
        confirmations: Option<u64>,
        max_amount_per_tx: Option<u64>,
    ) -> (c: Self)
        ensures
            c.rf_node_url@ == match rf_node_url { Some(s) => s@, None => "http://localhost:8545"@ },
            c.bridge_private_key@ == match bridge_private_key { Some(s) => s@, None => Seq::<char>::empty() },
            c.bridge_data_dir@ == match bridge_data_dir { Some(s) => s@, None => "./bridge_data"@ },
            c.poll_interval_secs == match poll_interval_secs { Some(v) => v, None => 60 },
            c.confirmations == match confirmations { Some(v) => v, None => 3 },
            c.max_amount_per_tx == match max_amount_per_tx { Some(v) => v, None => 1_000_000 },
    {
        RelayerConfig {
            rf_node_url: match rf_node_url { Some(s) => s, None => String::from_str("http://localhost:8545") },
            bridge_private_key: match bridge_private_key { Some(s) => s, None => String::new() },
            bridge_data_dir: match bridge_data_dir { Some(s) => s, None => String::from_str("./bridge_data") },
            poll_interval_secs: match poll_interval_secs { Some(v) => v, None => 60 },
            confirmations: match confirmations { Some(v) => v, None => 3 },
            max_amount_per_tx: match max_amount_per_tx { Some(v) => v, None => 1_000_000 },
        }
    }
}

/// Delay after the `errors`-th consecutive failure: 30 s doubled per
/// earlier failure, at most four doublings, capped at 300 s.
pub open spec fn backoff_delay(errors: u32) -> u64 {
    let shift = if errors - 1 < 4 { errors - 1 } else { 4 };
    let d = 30 * pow2_small(shift as nat);
    if d < 300 { d as u64 } else { 300 }
}

/// 2 to the power `n`, for small `n`.
pub open spec fn pow2_small(n: nat) -> nat
    decreases n,
{
    if n == 0 { 1 } else { 2 * pow2_small((n - 1) as nat) }
}

/// The delays after consecutive failures: 30, 60, 120, 240 s, then 300 s
/// from the fifth failure on.
pub proof fn lemma_backoff_delays(errors: u32)
    requires
        errors >= 1,
    ensures
        errors == 1 ==> backoff_delay(errors) == 30,
        errors == 2 ==> backoff_delay(errors) == 60,
        errors == 3 ==> backoff_delay(errors) == 120,
        errors == 4 ==> backoff_delay(errors) == 240,
        errors >= 5 ==> backoff_delay(errors) == 300,
{
    reveal_with_fuel(pow2_small, 5);
}

/// The (consecutive failures, blocked until) of a backoff after a failure
/// at time `now`, as `ChainBackoff::on_error` leaves it.
pub open spec fn backoff_after_error(b: (u32, Option<u64>), now: u64) -> (u32, Option<u64>) {
    ((b.0 + 1) as u32, Some((now + backoff_delay((b.0 + 1) as u32)) as u64))
}

/// The backoff after failures at `times`, one after the other, from `b`.
pub open spec fn backoff_after_errors(b: (u32, Option<u64>), times: Seq<u64>) -> (u32, Option<u64>)
    decreases times.len(),
{
    if times.len() == 0 {
        b
    } else {
        backoff_after_error(backoff_after_errors(b, times.drop_last()), times.last())
    }
}

/// After `k` failures in a row from a fresh backoff, the last at time `t`,
/// `k` failures are counted and the chain is blocked until `t` plus the
/// `k`-th delay (`lemma_backoff_delays`).
pub proof fn lemma_backoff_run(times: Seq<u64>)
    requires
        times.len() >= 1,
        times.len() < u32::MAX,
    ensures
        backoff_after_errors((0u32, None), times) == (times.len() as u32,
            Some((times.last() + backoff_delay(times.len() as u32)) as u64)),
    decreases times.len(),
{
    let start: (u32, Option<u64>) = (0u32, None);
    if times.len() > 1 {
        lemma_backoff_run(times.drop_last());
        assert(times.drop_last().last() == times[times.len() - 2]);
    } else {
        assert(times.drop_last() =~= Seq::<u64>::empty());
        assert(backoff_after_errors(start, times.drop_last()) == start);
    }
}

/// Per-chain backoff: consecutive failures and the time (in seconds) until
/// which the chain is skipped.
pub struct ChainBackoff {
    pub consecutive_errors: u32,
    pub blocked_until: Option<u64>,
}

impl ChainBackoff {
    /// No failures, not blocked.
    pub fn new() -> (b: Self)
        ensures
            b.consecutive_errors == 0,
            b.blocked_until is None,
    {
        ChainBackoff { consecutive_errors: 0, blocked_until: None }
    }

    /// Whether the chain is skipped at time `now`.
    pub fn is_blocked(&self, now: u64) -> (r: bool)
        ensures
            r == (self.blocked_until matches Some(t) && now < t),
    {
        match self.blocked_until {
            Some(t) => now < t,
            None => false,
        }
    }

    /// A scan succeeded: failures forgotten, not blocked.
    pub fn on_success(&mut self)
        ensures
            final(self).consecutive_errors == 0,
            final(self).blocked_until is None,
    {
        self.consecutive_errors = 0;
        self.blocked_until = None;
    }

    /// A scan failed at time `now`: one more failure, blocked for its
    /// delay, which is returned.
    pub fn on_error(&mut self, now: u64) -> (wait_secs: u64)
        requires
            old(self).consecutive_errors < u32::MAX,
            now + 300 <= u64::MAX,
        ensures
            final(self).consecutive_errors == old(self).consecutive_errors + 1,
            (final(self).consecutive_errors, final(self).blocked_until)
                == backoff_after_error((old(self).consecutive_errors, old(self).blocked_until), now),
            wait_secs == backoff_delay(final(self).consecutive_errors),
            final(self).blocked_until == Some((now + wait_secs) as u64),
            30 <= wait_secs <= 300,
    {
        self.consecutive_errors = self.consecutive_errors + 1;
        let shift: u32 = if self.consecutive_errors - 1 < 4 { self.consecutive_errors - 1 } else { 4 };
        let doubled: u64 = 30u64 << shift;
        proof {
            reveal_with_fuel(pow2_small, 5);
            if shift == 0 {
                assert(30u64 << 0u32 == 30) by (bit_vector);
            } else if shift == 1 {
                assert(30u64 << 1u32 == 60) by (bit_vector);
            } else if shift == 2 {
                assert(30u64 << 2u32 == 120) by (bit_vector);
            } else if shift == 3 {
                assert(30u64 << 3u32 == 240) by (bit_vector);
            } else {
                assert(30u64 << 4u32 == 480) by (bit_vector);
            }
            assert(doubled == 30 * pow2_small(shift as nat));
            assert(doubled >= 30);
        }
        let wait_secs = if doubled < 300 { doubled } else { 300 };
        self.blocked_until = Some(now + wait_secs);
        wait_secs
    }
}

/// Blocks to scan on an EVM chain whose head is `current_block`, last
/// scanned up to `last_scanned`: from the later of the two starts (at most
/// 100 blocks back), up to the head less the confirmations; none when the
/// head is unknown (0) or the range is empty.
pub fn evm_scan_window(last_scanned: u64, current_block: u64, confirmations: u64) -> (r: Option<(u64, u64)>)
    ensures
        ({
            let back = if current_block >= 100 { current_block - 100 } else { 0 };
            let from = if last_scanned >= back { last_scanned as int } else { back };
            let to = if current_block >= confirmations { current_block - confirmations } else { 0 };
            r == if current_block == 0 || from >= to { None::<(u64, u64)> } else { Some((from as u64, to as u64)) }
        }),
{
    if current_block == 0 {
        return None;
    }
    let back = current_block.saturating_sub(100);
    let from = if last_scanned >= back { last_scanned } else { back };
    let to = current_block.saturating_sub(confirmations);
    if from >= to {
        None
    } else {
        Some((from, to))
    }
}

/// `t` is the wrapped token of `chain`.
pub open spec fn token_matches(chain: EvmChain, t: Seq<char>) -> bool {
    match chain {
        EvmChain::EthereumSepolia => t == "wETH"@,
        EvmChain::BscTestnet => t == "wBNB"@,
        EvmChain::PolygonAmoy => t == "wMATIC"@,
    }
}

/// What the relayer does with a scanned EVM lock.
pub enum EvmLockAction {
    /// Already completed: nothing to do.
    Skip,
    /// Over the per-event limit: record it as failed.
    Reject,
    /// Record it as processing and mint this wrapped token.
    Mint(&'static str),
}

/// Decides on an EVM lock of `amount` on `chain`, given whether it was
/// already completed and the per-event limit.
pub fn evm_lock_action(chain: EvmChain, already_completed: bool, amount: u64, max_amount: u64) -> (a: EvmLockAction)
    ensures
        already_completed ==> a is Skip,
        !already_completed && amount > max_amount ==> a is Reject,
        !already_completed && amount <= max_amount ==> a is Mint,
        a matches EvmLockAction::Mint(t) ==> token_matches(chain, t@),
{
    if already_completed {
        EvmLockAction::Skip
    } else if amount > max_amount {
        EvmLockAction::Reject
    } else {
        EvmLockAction::Mint(chain.wrapped_token())
    }
}

/// What the relayer does first with a scanned RedFlag lock.
pub enum RfLockAction {
    /// Already completed, or its nonce already released: nothing to do.
    Skip,
    /// Over the per-event limit: record it as failed.
    RejectAmount,
    /// No connector for its chain: record it as failed.
    RejectChain,
    /// Ask the target chain whether the nonce was already released.
    CheckNonce,
}

/// Decides on a RedFlag lock of `amount`, given whether it was completed,
/// whether its nonce was released, the per-event limit, and whether its
/// target chain has a connector.
pub fn rf_lock_action(completed: bool, nonce_released: bool, amount: u64, max_amount: u64, chain_connected: bool) -> (a: RfLockAction)
    ensures
        completed || nonce_released ==> a is Skip,
        !(completed || nonce_released) && amount > max_amount ==> a is RejectAmount,
        !(completed || nonce_released) && amount <= max_amount && !chain_connected ==> a is RejectChain,
        !(completed || nonce_released) && amount <= max_amount && chain_connected ==> a is CheckNonce,
{
    if completed || nonce_released {
        RfLockAction::Skip
    } else if amount > max_amount {
        RfLockAction::RejectAmount
    } else if !chain_connected {
        RfLockAction::RejectChain
    } else {
        RfLockAction::CheckNonce
    }
}

/// After asking the target chain: whether to mark the event completed (and
/// its nonce released) right away, or to release the funds.
pub fn rf_after_nonce_check(released_on_chain: bool) -> (release: bool)
    ensures
        release == !released_on_chain,
{
    !released_on_chain
}

/// The RedFlag lock that a history entry stands for: a transfer to the
/// lock account stamped at `since` or later, whose data names a served
/// chain. `encoded_tx` is the entry's encoding, whose BLAKE3 digest in hex
/// becomes the event's hash.
pub fn rf_lock_event_from(
    tx: &RfTransaction,
    data: &BridgeData,
    encoded_tx: &[u8],
    since: u64,
    now: u64,
) -> (r: Option<RfLockEvent>)
    ensures
        r is Some <==> (tx.timestamp >= since && tx.receiver@ == BRIDGE_LOCK_ADDRESS@
            && exists|c: EvmChain| c.chain_id_spec() == data.to_chain_id),
        r matches Some(e) ==> {
            &&& e.rf_tx_hash@ == hex_encoded(blake3_digest(encoded_tx@))
            &&& e.from_rf_address@ == tx.sender@
            &&& e.to_evm_address@ == data.to_evm_address@
            &&& e.to_chain.chain_id_spec() == data.to_chain_id
            &&& e.amount == tx.amount
            &&& e.nonce == data.bridge_nonce
            &&& e.status is Pending
            &&& e.created_at == now
        },
{
    let lock = BRIDGE_LOCK_ADDRESS.to_owned();
    if tx.timestamp < since || tx.receiver != lock {
        return None;
    }
    let chain = match EvmChain::from_chain_id(data.to_chain_id) {
        Some(c) => c,
        None => return None,
    };
    let digest = blake3_hash(encoded_tx);
    Some(RfLockEvent {
        rf_tx_hash: hex_encode(&digest),
        from_rf_address: tx.sender.clone(),
        to_evm_address: data.to_evm_address.clone(),
        to_chain: chain,
        amount: tx.amount,
        nonce: data.bridge_nonce,
        status: BridgeEventStatus::Pending,
        created_at: now,
    })
}

/// Approvals needed out of `nodes` bridge nodes: two thirds, rounded up.
pub fn approval_threshold(nodes: usize) -> (t: usize)
    requires
        nodes * 2 + 2 <= usize::MAX,
    ensures
        t == (nodes * 2 + 2) / 3,
{
    (nodes * 2 + 2) / 3
}

/// Whether a shared minting secret may be used: not empty, and not the
/// development default.
pub fn mint_secret_acceptable(secret: &str) -> (ok: bool)
    ensures
        ok == (secret@.len() > 0 && secret@ != "bridge_dev_secret"@),
{
    let dev = "bridge_dev_secret".to_owned();
    let s = secret.to_owned();
    !(s.as_str().is_empty() || s == dev)
}

/// Number of completed statuses among `statuses`.
pub open spec fn completed_count(statuses: Seq<bool>) -> nat
    decreases statuses.len(),
{
    if statuses.len() == 0 {
        0
    } else {
        completed_count(statuses.drop_last()) + if statuses.last() { 1nat } else { 0nat }
    }
}

/// Counters of the summary: events of each side, completed ones, and those
/// still pending (not completed).
pub fn bridge_counts(evm_completed: &[bool], rf_completed: &[bool]) -> (r: (usize, usize, usize, usize, usize))
    requires
        evm_completed@.len() + rf_completed@.len() <= usize::MAX,
    ensures
        r.0 == evm_completed@.len(),
        r.1 == rf_completed@.len(),
        r.2 == completed_count(evm_completed@),
        r.3 == completed_count(rf_completed@),
        r.4 == (r.0 - r.2) + (r.1 - r.3),
{
    let mut evm_done: usize = 0;
    let mut i: usize = 0;
    while i < evm_completed.len()
        invariant
            i <= evm_completed.len(),
            evm_done == completed_count(evm_completed@.subrange(0, i as int)),
            evm_done <= i,
        decreases evm_completed.len() - i,
    {
        assert(evm_completed@.subrange(0, i + 1).drop_last() =~= evm_completed@.subrange(0, i as int));
        if evm_completed[i] {
            evm_done = evm_done + 1;
        }
        i = i + 1;
    }
    let mut rf_done: usize = 0;
    let mut j: usize = 0;
    while j < rf_completed.len()
        invariant
            j <= rf_completed.len(),
            rf_done == completed_count(rf_completed@.subrange(0, j as int)),
            rf_done <= j,
        decreases rf_completed.len() - j,
    {
        assert(rf_completed@.subrange(0, j + 1).drop_last() =~= rf_completed@.subrange(0, j as int));
        if rf_completed[j] {
            rf_done = rf_done + 1;
        }
        j = j + 1;
    }
    assert(evm_completed@.subrange(0, i as int) =~= evm_completed@);
    assert(rf_completed@.subrange(0, j as int) =~= rf_completed@);
    let evm_total = evm_completed.len();
    let rf_total = rf_completed.len();
    let pending_evm = evm_total - evm_done;
    let pending_rf = rf_total - rf_done;
    assert(pending_evm + pending_rf <= evm_total + rf_total);
    (evm_total, rf_total, evm_done, rf_done, pending_evm + pending_rf)
}

/// One bridge node's approval of a mint.
pub struct Approval {
    pub signer_pubkey: String,
    pub signature: String,
}

/// The approvals gathered for one mint from the configured bridge nodes.
pub struct ApprovalTally {
    /// Approvals needed: two thirds of the nodes, rounded up.
    pub threshold: usize,
    pub approvals: Vec<Approval>,
}

impl ApprovalTally {
    /// No approvals yet, from `nodes` nodes.
    pub fn new(nodes: usize) -> (t: Self)
        requires
            nodes * 2 + 2 <= usize::MAX,
        ensures
            t.threshold == (nodes * 2 + 2) / 3,
            t.approvals@.len() == 0,
    {
        ApprovalTally { threshold: approval_threshold(nodes), approvals: Vec::new() }
    }

    /// Takes one node's reply, `None` when it did not approve or did not
    /// answer; answers whether the approvals have reached the threshold, at
    /// which point no more nodes are asked.
    pub fn record(&mut self, reply: Option<Approval>) -> (done: bool)
        ensures
            final(self).threshold == old(self).threshold,
            final(self).approvals@ == match reply {
                Some(a) => old(self).approvals@.push(a),
                None => old(self).approvals@,
            },
            done == (final(self).approvals@.len() >= final(self).threshold),
    {
        if let Some(a) = reply {
            self.approvals.push(a);
        }
        self.approvals.len() >= self.threshold
    }

    /// The approvals when they reach the threshold; else how many came and
    /// how many were needed.
    pub fn finish(self) -> (r: Result<Vec<Approval>, (usize, usize)>)
        ensures
            self.approvals@.len() >= self.threshold ==> (r matches Ok(v) && v@ == self.approvals@),
            self.approvals@.len() < self.threshold ==> r == Err::<Vec<Approval>, (usize, usize)>((self.approvals@.len() as usize, self.threshold)),
    {
        let n = self.approvals.len();
        if n < self.threshold {
            return Err((n, self.threshold));
        }
        Ok(self.approvals)
    }
}

/// Identifier of a threshold mint of RF to `to`: `rf-`, the address, `-`,
/// the nonce in decimal.
pub open spec fn rf_mint_id(to: Seq<char>, nonce: u64) -> Seq<char> {
    "rf-"@ + to + "-"@ + decimal(nonce as nat)
}

/// Identifier of a threshold mint of a wrapped token: `evm-`, the token,
/// `-`, the address, `-`, the nonce in decimal.
pub open spec fn evm_mint_id(token: Seq<char>, to: Seq<char>, nonce: u64) -> Seq<char> {
    "evm-"@ + token + "-"@ + to + "-"@ + decimal(nonce as nat)
}

/// The identifier of a threshold mint of RF.
pub fn rf_mint_request_id(to: &str, nonce: u64) -> (r: String)
    ensures
        r@ == rf_mint_id(to@, nonce),
{
    let mut r = String::from_str("rf-");
    r.append(to);
    r.append("-");
    let d = decimal_text(nonce);
    r.append(d.as_str());
    r
}

/// The identifier of a threshold mint of a wrapped token.
pub fn evm_mint_request_id(token: &str, to: &str, nonce: u64) -> (r: String)
    ensures
        r@ == evm_mint_id(token@, to@, nonce),
{
    let mut r = String::from_str("evm-");
    r.append(token);
    r.append("-");
    r.append(to);
    r.append("-");
    let d = decimal_text(nonce);
    r.append(d.as_str());
    r
}

/// How the relayer asks the node to mint.
pub enum MintMode {
    /// Gather approvals from these bridge nodes first.
    Threshold(Vec<String>),
    /// Present the shared mint secret.
    Secret(String),
}

/// Why the relayer cannot mint.
#[derive(Clone, Copy, Debug, PartialEq, Eq, Structural)]
pub enum MintModeError {
    /// No node list and no shared secret.
    SecretMissing,
    /// The shared secret is empty or the development default.
    SecretInsecure,
}

/// The mint mode for the settings `node_urls` (a comma-separated list of
/// bridge nodes, empty when unset) and `mint_secret`: approvals from the
/// listed nodes when the setting is not empty, else the shared secret,
/// which must be set, not empty and not the development default.
pub fn mint_mode(node_urls: &str, mint_secret: Option<&str>) -> (r: Result<MintMode, MintModeError>)
    ensures
        node_urls@.len() > 0 ==> (r matches Ok(MintMode::Threshold(v)) && v@.map_values(|x: String| x@) == list_entries(node_urls@)),
        node_urls@.len() == 0 && mint_secret is None ==> r == Err::<MintMode, MintModeError>(MintModeError::SecretMissing),
        node_urls@.len() == 0 ==> match mint_secret {
            Some(s) => if s@.len() > 0 && s@ != "bridge_dev_secret"@ {
                r matches Ok(MintMode::Secret(t)) && t@ == s@
            } else {
                r == Err::<MintMode, MintModeError>(MintModeError::SecretInsecure)
            },
            None => true,
        },
{
    if node_urls.unicode_len() > 0 {
        return Ok(MintMode::Threshold(list_entries_of(node_urls)));
    }
    match mint_secret {
        None => Err(MintModeError::SecretMissing),
        Some(s) => {
            if mint_secret_acceptable(s) {
                Ok(MintMode::Secret(s.to_owned()))
            } else {
                Err(MintModeError::SecretInsecure)
            }
        },
    }
}

} // verus!
