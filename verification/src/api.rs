//! The node's answers to read requests and its gossip messages, as plain
//! values; serialising them and serving them is the application's.

use vstd::prelude::*;
use crate::chain::{tx_views, Transaction, CHAIN_ID, MIN_FEE};
use crate::consensus::{
    is_vertex_id, latest_vertices, vertex_views, ConsensusEngine, Mempool, VertexView,
};
use crate::ledger::{funds_of, history_of, StateDB};
use crate::outside::{
    committed_members, committed_set_contains, drawn_from_txs, hex_encode, hex_encoded,
    pending_tx_take,
};

verus! {

/// Gossip topic of transactions.
pub const TOPIC_TRANSACTIONS: &'static str = "redflag/txs/1.0.0";

/// Gossip topic of blocks.
pub const TOPIC_BLOCKS: &'static str = "redflag/blocks/1.0.0";

/// Protocol version announced to peers.
pub const PROTOCOL_VERSION: &'static str = "/redflag/2.1.0";

/// A gossip message, its payload already encoded.
pub enum NetworkMessage {
    NewTransaction(Vec<u8>),
    NewEncryptedTransaction(Vec<u8>),
    NewBlock(Vec<u8>),
}

impl NetworkMessage {
    /// The topic the message is published on: transactions, plain or
    /// encrypted, on the transaction topic; blocks on the block topic.
    pub fn topic(&self) -> (t: &'static str)
        ensures
            t@ == if self is NewBlock { TOPIC_BLOCKS@ } else { TOPIC_TRANSACTIONS@ },
    {
        match self {
            NetworkMessage::NewTransaction(_) | NetworkMessage::NewEncryptedTransaction(_) => TOPIC_TRANSACTIONS,
            NetworkMessage::NewBlock(_) => TOPIC_BLOCKS,
        }
    }
}

/// Balance and nonce of an address.
pub struct BalanceResponse {
    pub address: String,
    pub balance: u64,
    pub nonce: u64,
}

/// The funds of `address`, zero for an unknown one.
pub fn balance_response(state: &StateDB, address: String) -> (r: BalanceResponse)
    requires
        state.wf(),
    ensures
        r.address@ == address@,
        r.balance == funds_of(state@.accounts, address@).balance,
        r.nonce == funds_of(state@.accounts, address@).nonce,
{
    let (balance, nonce) = match state.get_account(address.as_str()) {
        Some(a) => (a.balance, a.nonce),
        None => (0, 0),
    };
    BalanceResponse { address, balance, nonce }
}

/// The node's status.
pub struct StatusResponse {
    pub peer_id: String,
    pub chain_id: u64,
    pub current_round: u64,
    pub pending_txs: usize,
    pub committed_vertices: usize,
    pub total_vertices: usize,
    pub validator_count: usize,
    pub fee_pool_balance: u64,
    pub version: &'static str,
}

/// The status of a node running `engine` as peer `peer_id`, at software
/// version `version`.
pub fn status_response(engine: &ConsensusEngine, peer_id: String, version: &'static str) -> (r: StatusResponse)
    requires
        engine.state.wf(),
        engine.state@.tx_count <= usize::MAX,
    ensures
        r.peer_id@ == peer_id@,
        r.chain_id == CHAIN_ID,
        r.current_round == engine.round(),
        r.pending_txs == engine.mempool@.pending.dom().len(),
        r.committed_vertices == engine.committed().len(),
        r.total_vertices == engine.dag@.vertices.dom().len(),
        r.validator_count == engine.validator_list().len(),
        r.version@ == version@,
{
    let s = engine.summary();
    StatusResponse {
        peer_id,
        chain_id: CHAIN_ID,
        current_round: s.current_round,
        pending_txs: s.pending_txs,
        committed_vertices: s.committed_vertices,
        total_vertices: s.total_vertices,
        validator_count: s.validator_count,
        fee_pool_balance: s.fee_pool_balance,
        version,
    }
}

/// A vertex in a listing.
pub struct VertexSummary {
    /// Hex identifier.
    pub id: String,
    pub round: u64,
    /// Hex of the first eight bytes of the author's key.
    pub author: String,
    /// Plain and encrypted transactions it carries.
    pub tx_count: usize,
    pub committed: bool,
}

/// Vertices listed by the node.
pub const LISTED_VERTICES: usize = 50;

/// The first `n` bytes of `b`, at most all of them.
pub open spec fn head(b: Seq<u8>, n: int) -> Seq<u8> {
    b.take(if b.len() < n { b.len() as int } else { n })
}

fn head_bytes(b: &Vec<u8>, n: usize) -> (r: Vec<u8>)
    ensures
        r@ == head(b@, n as int),
{
    let k = if b.len() < n { b.len() } else { n };
    let mut r: Vec<u8> = Vec::new();
    let mut i: usize = 0;
    while i < k
        invariant
            k <= b.len(),
            i <= k,
            r@ == b@.take(i as int),
        decreases k - i,
    {
        r.push(b[i]);
        assert(r@ =~= b@.take(i + 1));
        i = i + 1;
    }
    r
}

/// `s` summarises `v`, whose identifier is `id`.
pub open spec fn summarises(s: VertexSummary, v: VertexView, committed: Set<Seq<u8>>) -> bool {
    exists|id: Seq<u8>| {
        &&& #[trigger] is_vertex_id(v, id)
        &&& s.id@ == hex_encoded(id)
        &&& s.round == v.round
        &&& s.author@ == hex_encoded(head(v.author, 8))
        &&& s.tx_count == if v.transactions.len() + v.encrypted_transactions.len() <= usize::MAX {
                v.transactions.len() + v.encrypted_transactions.len()
            } else {
                usize::MAX as nat
            }
        &&& s.committed == committed.contains(id)
    }
}

/// Summaries of the `LISTED_VERTICES` latest vertices, latest round first.
pub fn vertex_summaries(engine: &ConsensusEngine) -> (r: Vec<VertexSummary>)
    ensures
        exists|keys: Seq<Seq<u8>>, recent: Seq<VertexView>| {
            &&& #[trigger] latest_vertices(engine.dag@.vertices, keys, recent)
            &&& recent.len() == r@.len()
            &&& r@.len() == if LISTED_VERTICES <= engine.dag@.vertices.dom().len() { LISTED_VERTICES as int } else { engine.dag@.vertices.dom().len() as int }
            &&& forall|i: int| 0 <= i < r@.len() ==> summarises(#[trigger] r@[i], recent[i], committed_members(engine.committed_vertices))
        },
{
    let vertices = engine.dag.recent_vertices(LISTED_VERTICES);
    let ghost recent = vertex_views(vertices@);
    let mut out: Vec<VertexSummary> = Vec::new();
    let n = vertices.len();
    let mut i: usize = 0;
    while i < n
        invariant
            n == vertices@.len(),
            recent == vertex_views(vertices@),
            i <= n,
            out@.len() == i,
            forall|j: int| 0 <= j < i ==> summarises(#[trigger] out@[j], recent[j], committed_members(engine.committed_vertices)),
        decreases n - i,
    {
        let v = &vertices[i];
        let id = v.id();
        let author = head_bytes(&v.author, 8);
        let committed = committed_set_contains(&engine.committed_vertices, &id);
        let s = VertexSummary {
            id: hex_encode(&id),
            round: v.round,
            author: hex_encode(author.as_slice()),
            tx_count: v.transactions.len().saturating_add(v.encrypted_transactions.len()),
            committed,
        };
        proof {
            assert(recent[i as int] == v@);
            assert(is_vertex_id(v@, id@));
            assert(summarises(s, recent[i as int], committed_members(engine.committed_vertices)));
        }
        out.push(s);
        i = i + 1;
    }
    out
}

/// The transactions of an address.
pub struct HistoryResponse {
    pub address: String,
    pub count: usize,
    pub history: Vec<Transaction>,
}

/// The transactions that involve `address`, newest first.
pub fn history_response(state: &StateDB, address: String) -> (r: HistoryResponse)
    requires
        state.wf(),
    ensures
        r.address@ == address@,
        tx_views(r.history@) == history_of(state@.history, address@),
        r.count == r.history@.len(),
{
    let history = state.get_history(address.as_str());
    let count = history.len();
    HistoryResponse { address, count, history }
}

/// What the network is.
pub struct NetworkInfoResponse {
    pub chain_id: u64,
    pub chain_name: &'static str,
    pub consensus: &'static str,
    pub crypto: &'static str,
    pub p2p: &'static str,
    pub min_fee: u64,
    pub version: &'static str,
}

/// The description of the network, at software version `version`.
pub fn network_info(version: &'static str) -> (r: NetworkInfoResponse)
    ensures
        r.chain_id == CHAIN_ID,
        r.min_fee == MIN_FEE,
        r.chain_name@ == "redflag.web3"@,
        r.version@ == version@,
{
    NetworkInfoResponse {
        chain_id: CHAIN_ID,
        chain_name: "redflag.web3",
        consensus: "Bullshark DAG (Narwhal+Bullshark)",
        crypto: "ML-DSA-65 + ML-KEM-768 (FIPS 204/203)",
        p2p: "libp2p (TCP+QUIC, Gossipsub, Kademlia, mDNS)",
        min_fee: MIN_FEE,
        version,
    }
}

/// The pending transactions.
pub struct MempoolResponse {
    pub count: usize,
    pub txs: Vec<Transaction>,
}

/// Every pending transaction once, in the mempool's own order.
pub fn mempool_response(mempool: &Mempool) -> (r: MempoolResponse)
    ensures
        r.count == r.txs@.len(),
        r.count == mempool@.pending.dom().len(),
        drawn_from_txs(tx_views(r.txs@), mempool@.pending),
{
    let n = mempool.pending_count();
    let txs = pending_tx_take(&mempool.pending_transactions, n);
    assert(tx_views(txs@) =~= txs@.map_values(|t: Transaction| t@));
    MempoolResponse { count: txs.len(), txs }
}

} // verus!
