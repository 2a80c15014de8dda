//! What the block explorer reports: an account with its totals, the supply
//! split, and the lookup of vertices and transactions by a prefix of their
//! hex identifiers.

use vstd::prelude::*;
use crate::chain::{tx_views, Transaction, TxView, FEE_POOL_ADDRESS, GENESIS_ADDRESS};
use crate::codec::{enc_tx, encode_transaction, IntCoding};
use crate::consensus::{is_vertex_id, latest_vertices, vertex_views, ConsensusEngine, Vertex, VertexView};
use crate::ledger::{funds_of, history_of, StateDB};
use crate::outside::{
    blake3_digest, blake3_hash, committed_members, committed_set_contains, hex_decode, hex_decoded, hex_encode, hex_encoded,
};
use crate::text::{trim, trimmed};

verus! {

/// RF issued at launch: the genesis and faucet allocations.
pub const TOTAL_ISSUED: u64 = 1_500_000_000;

/// Most history entries an address report carries.
pub const REPORT_HISTORY: usize = 20;

/// Most recent vertices searched by identifier.
pub const SEARCH_VERTICES: usize = 200;

/// Most recent transactions searched by hash.
pub const SEARCH_TXS: usize = 500;

/// RF that `address` sent in `h`, fees included.
pub open spec fn sent_total(h: Seq<TxView>, address: Seq<char>) -> int
    decreases h.len(),
{
    if h.len() == 0 {
        0
    } else {
        sent_total(h.drop_last(), address) + if h.last().sender == address { h.last().amount + h.last().fee } else { 0 }
    }
}

/// RF that `address` received in `h`.
pub open spec fn received_total(h: Seq<TxView>, address: Seq<char>) -> int
    decreases h.len(),
{
    if h.len() == 0 {
        0
    } else {
        received_total(h.drop_last(), address) + if h.last().receiver == address { h.last().amount as int } else { 0 }
    }
}

proof fn lemma_totals_bounded(h: Seq<TxView>, address: Seq<char>)
    ensures
        0 <= sent_total(h, address),
        0 <= received_total(h, address) <= h.len() * 0xffff_ffff_ffff_ffff,
    decreases h.len(),
{
    if h.len() > 0 {
        lemma_totals_bounded(h.drop_last(), address);
    }
}

/// `v` capped at the largest `u128`.
pub open spec fn capped(v: int) -> u128 {
    if v <= u128::MAX { v as u128 } else { u128::MAX }
}

/// An account as the explorer shows it.
pub struct AddressReport {
    pub address: String,
    pub balance: u64,
    pub nonce: u64,
    /// Transactions that involve the address.
    pub tx_count: usize,
    pub total_sent: u128,
    pub total_received: u128,
    /// The latest `REPORT_HISTORY` of them, newest first.
    pub history: Vec<Transaction>,
}

/// The report on the account named by `query` (white space trimmed), when
/// there is such an account: its funds, how many transactions involve it,
/// what it sent (fees included) and received over them, and the latest of
/// them.
pub fn address_report(state: &StateDB, query: &str) -> (r: Option<AddressReport>)
    requires
        state.wf(),
    ensures
        r is Some <==> state@.accounts.contains_key(trimmed(query@)),
        r matches Some(rep) ==> {
            let q = trimmed(query@);
            let h = history_of(state@.history, q);
            &&& rep.address@ == q
            &&& rep.balance == funds_of(state@.accounts, q).balance
            &&& rep.nonce == funds_of(state@.accounts, q).nonce
            &&& rep.tx_count == h.len()
            &&& rep.total_sent == capped(sent_total(h, q))
            &&& rep.total_received == received_total(h, q)
            &&& tx_views(rep.history@) == h.take(if h.len() < REPORT_HISTORY { h.len() as int } else { REPORT_HISTORY as int })
        },
{
    let q = trim(query);
    let acc = match state.get_account(q) {
        Some(a) => a,
        None => return None,
    };
    let history = state.get_history(q);
    let ghost h = tx_views(history@);
    let key = q.to_owned();
    let mut sent: u128 = 0;
    let mut received: u128 = 0;
    let mut recent: Vec<Transaction> = Vec::new();
    let n = history.len();
    let mut i: usize = 0;
    while i < n
        invariant
            n == history@.len(),
            h == tx_views(history@),
            key@ == q@,
            i <= n,
            sent == capped(sent_total(h.take(i as int), q@)),
            received == received_total(h.take(i as int), q@),
            tx_views(recent@) == h.take(if i < REPORT_HISTORY { i as int } else { REPORT_HISTORY as int }),
        decreases n - i,
    {
        let t = &history[i];
        proof {
            let p = h.take(i + 1);
            assert(p.drop_last() =~= h.take(i as int));
            assert(p.last() == t@);
            lemma_totals_bounded(p, q@);
            lemma_totals_bounded(h.take(i as int), q@);
            assert((i + 1) * 0xffff_ffff_ffff_ffff <= 0xffff_ffff_ffff_ffff * 0xffff_ffff_ffff_ffff)
                by (nonlinear_arith) requires i + 1 <= 0xffff_ffff_ffff_ffff;
        }
        if t.sender == key {
            sent = sent.saturating_add(t.amount as u128 + t.fee as u128);
        }
        if t.receiver == key {
            received = received + t.amount as u128;
        }
        if i < REPORT_HISTORY {
            let ghost before = recent@;
            recent.push(t.clone());
            assert(tx_views(recent@) =~= tx_views(before).push(t@));
            assert(h.take(i + 1) =~= h.take(i as int).push(t@));
        }
        i = i + 1;
    }
    assert(h.take(n as int) =~= h);
    Some(AddressReport {
        address: acc.address,
        balance: acc.balance,
        nonce: acc.nonce,
        tx_count: n,
        total_sent: sent,
        total_received: received,
        history: recent,
    })
}

/// Where the RF supply stands.
pub struct SupplyReport {
    pub total: u64,
    /// What neither the faucet nor the genesis account holds.
    pub circulating: u64,
    pub fee_pool: u64,
    pub faucet: u64,
    pub genesis: u64,
}

/// The supply split for a node whose faucet is `faucet_address`.
pub fn supply_report(state: &StateDB, faucet_address: &str) -> (r: SupplyReport)
    requires
        state.wf(),
    ensures
        r.total == TOTAL_ISSUED,
        r.faucet == funds_of(state@.accounts, faucet_address@).balance,
        r.genesis == funds_of(state@.accounts, GENESIS_ADDRESS@).balance,
        r.fee_pool == funds_of(state@.accounts, FEE_POOL_ADDRESS@).balance,
        r.circulating == if TOTAL_ISSUED >= r.faucet + r.genesis { (TOTAL_ISSUED - r.faucet - r.genesis) as u64 } else { 0 },
{
    let faucet = state.get_balance(faucet_address);
    let fee_pool = state.get_balance(FEE_POOL_ADDRESS);
    let genesis = state.get_balance(GENESIS_ADDRESS);
    let circulating = TOTAL_ISSUED.saturating_sub(faucet).saturating_sub(genesis);
    SupplyReport { total: TOTAL_ISSUED, circulating, fee_pool, faucet, genesis }
}

/// `prefix` begins `text`.
pub open spec fn is_prefix(prefix: Seq<char>, text: Seq<char>) -> bool {
    prefix.len() <= text.len() && text.subrange(0, prefix.len() as int) == prefix
}

/// Whether `prefix` begins `text`.
pub fn starts_with(text: &str, prefix: &str) -> (r: bool)
    ensures
        r == is_prefix(prefix@, text@),
{
    let n = prefix.unicode_len();
    if n > text.unicode_len() {
        return false;
    }
    let mut i: usize = 0;
    while i < n
        invariant
            n == prefix@.len(),
            n <= text@.len(),
            i <= n,
            forall|j: int| 0 <= j < i ==> text@[j] == prefix@[j],
        decreases n - i,
    {
        if text.get_char(i) != prefix.get_char(i) {
            assert(text@.subrange(0, n as int)[i as int] != prefix@[i as int]);
            return false;
        }
        i = i + 1;
    }
    assert(text@.subrange(0, n as int) =~= prefix@);
    true
}

/// A vertex as the explorer shows it.
pub struct VertexReport {
    pub id_hex: String,
    pub vertex: Vertex,
    pub committed: bool,
}

/// Some identifier of `v` begins with hex text other than `q`.
pub open spec fn unmatched(v: VertexView, q: Seq<char>) -> bool {
    exists|id: Seq<u8>| #[trigger] is_vertex_id(v, id) && !is_prefix(q, hex_encoded(id))
}

/// `recent` are the `SEARCH_VERTICES` latest vertices of `m` (all of them
/// when there are fewer), latest round first, under the identifiers `keys`.
pub open spec fn searched(m: Map<Seq<u8>, VertexView>, keys: Seq<Seq<u8>>, recent: Seq<VertexView>) -> bool {
    &&& latest_vertices(m, keys, recent)
    &&& recent.len() == if SEARCH_VERTICES <= m.dom().len() { SEARCH_VERTICES as int } else { m.dom().len() as int }
}

/// `rep` reports `recent[k]`, the first vertex of `recent` with an
/// identifier that begins with `q`.
pub open spec fn first_match(recent: Seq<VertexView>, k: int, q: Seq<char>, rep: VertexReport, committed: Set<Seq<u8>>) -> bool {
    &&& 0 <= k < recent.len()
    &&& recent[k] == rep.vertex@
    &&& forall|j: int| 0 <= j < k ==> unmatched(#[trigger] recent[j], q)
    &&& exists|id: Seq<u8>| {
            &&& #[trigger] is_vertex_id(rep.vertex@, id)
            &&& rep.id_hex@ == hex_encoded(id)
            &&& is_prefix(q, rep.id_hex@)
            &&& rep.committed == committed.contains(id)
        }
}

/// The first of the `SEARCH_VERTICES` latest vertices (latest round first)
/// whose hex identifier begins with `query` (white space trimmed), for a
/// query of at least 8 characters; whether it is committed comes with it.
pub fn vertex_report(engine: &ConsensusEngine, query: &str) -> (r: Option<VertexReport>)
    ensures
        trimmed(query@).len() < 8 ==> r is None,
        (r is None && trimmed(query@).len() >= 8) ==> exists|keys: Seq<Seq<u8>>, recent: Seq<VertexView>| {
            &&& #[trigger] searched(engine.dag@.vertices, keys, recent)
            &&& forall|k: int| 0 <= k < recent.len() ==> unmatched(#[trigger] recent[k], trimmed(query@))
        },
        r matches Some(rep) ==> exists|keys: Seq<Seq<u8>>, recent: Seq<VertexView>, k: int| {
            &&& #[trigger] searched(engine.dag@.vertices, keys, recent)
            &&& #[trigger] first_match(recent, k, trimmed(query@), rep, committed_members(engine.committed_vertices))
        },
{
    let q = trim(query);
    if q.unicode_len() < 8 {
        return None;
    }
    let vertices = engine.dag.recent_vertices(SEARCH_VERTICES);
    let ghost recent = vertex_views(vertices@);
    let ghost keys = choose|keys: Seq<Seq<u8>>| #[trigger] latest_vertices(engine.dag@.vertices, keys, vertex_views(vertices@));
    assert(searched(engine.dag@.vertices, keys, recent));
    let n = vertices.len();
    let mut i: usize = 0;
    while i < n
        invariant
            n == vertices@.len(),
            recent == vertex_views(vertices@),
            i <= n,
            q@ == trimmed(query@),
            q@.len() >= 8,
            searched(engine.dag@.vertices, keys, recent),
            forall|k: int| 0 <= k < i ==> unmatched(#[trigger] recent[k], q@),
        decreases n - i,
    {
        let id = vertices[i].id();
        let id_hex = hex_encode(&id);
        assert(recent[i as int] == vertices@[i as int]@);
        if starts_with(id_hex.as_str(), q) {
            let committed = committed_set_contains(&engine.committed_vertices, &id);
            let res = Some(VertexReport { id_hex, vertex: vertices[i].clone(), committed });
            proof {
                let rep = res->0;
                assert(is_vertex_id(rep.vertex@, id@));
                assert(first_match(recent, i as int, trimmed(query@), rep, committed_members(engine.committed_vertices)));
            }
            return res;
        }
        assert(unmatched(recent[i as int], q@));
        i = i + 1;
    }
    None
}

/// The key under which the ledger indexes `tx`: the BLAKE3 digest of its
/// variable-length encoding.
pub open spec fn index_key(tx: TxView) -> Seq<u8> {
    blake3_digest(enc_tx(tx, IntCoding::Varint))
}

/// The hash the explorer shows for `tx`: hex of the BLAKE3 digest of its
/// encoding with integers in seven-bit groups.
pub open spec fn shown_hash(tx: TxView) -> Seq<char> {
    hex_encoded(blake3_digest(enc_tx(tx, IntCoding::Leb128)))
}

/// How many of `len` recent transactions are searched by hash.
pub open spec fn search_limit(len: nat) -> int {
    if SEARCH_TXS < len { SEARCH_TXS as int } else { len as int }
}

/// A transaction as the explorer shows it.
pub struct TxReport {
    pub hash: String,
    pub tx: Transaction,
}

/// `i` is the first position of `h` whose index key is `key`.
pub open spec fn first_indexed(h: Seq<TxView>, key: Seq<u8>, i: int) -> bool {
    &&& 0 <= i < h.len()
    &&& index_key(h[i]) == key
    &&& forall|j: int| 0 <= j < i ==> index_key(#[trigger] h[j]) != key
}

/// `i` is the first of the first `n` positions of `h` whose shown hash
/// begins with `q`.
pub open spec fn first_shown(h: Seq<TxView>, n: int, q: Seq<char>, i: int) -> bool {
    &&& 0 <= i < n
    &&& i < h.len()
    &&& is_prefix(q, shown_hash(h[i]))
    &&& forall|j: int| 0 <= j < i ==> !is_prefix(q, shown_hash(#[trigger] h[j]))
}

fn report_of(tx: &Transaction) -> (r: TxReport)
    ensures
        r.tx@ == tx@,
        r.hash@ == shown_hash(tx@),
{
    let bytes = encode_transaction(tx, IntCoding::Leb128);
    let digest = blake3_hash(bytes.as_slice());
    TxReport { hash: hex_encode(&digest), tx: tx.clone() }
}

fn find_indexed(all: &Vec<Transaction>, key: &[u8]) -> (r: Option<usize>)
    ensures
        match r {
            Some(i) => first_indexed(tx_views(all@), key@, i as int),
            None => forall|j: int| 0 <= j < all@.len() ==> index_key(#[trigger] tx_views(all@)[j]) != key@,
        },
{
    let ghost h = tx_views(all@);
    let mut i: usize = 0;
    while i < all.len()
        invariant
            h == tx_views(all@),
            i <= all@.len(),
            forall|j: int| 0 <= j < i ==> index_key(#[trigger] h[j]) != key@,
        decreases all.len() - i,
    {
        let bytes = encode_transaction(&all[i], IntCoding::Varint);
        let digest = blake3_hash(bytes.as_slice());
        assert(h[i as int] == all@[i as int]@);
        if crate::chain::bytes_equal(&digest, key) {
            return Some(i);
        }
        i = i + 1;
    }
    None
}

fn find_shown(all: &Vec<Transaction>, n: usize, q: &str) -> (r: Option<usize>)
    requires
        n <= all@.len(),
    ensures
        match r {
            Some(i) => first_shown(tx_views(all@), n as int, q@, i as int),
            None => forall|j: int| 0 <= j < n ==> !is_prefix(q@, shown_hash(#[trigger] tx_views(all@)[j])),
        },
{
    let ghost h = tx_views(all@);
    let mut i: usize = 0;
    while i < n
        invariant
            h == tx_views(all@),
            n <= all@.len(),
            i <= n,
            forall|j: int| 0 <= j < i ==> !is_prefix(q@, shown_hash(#[trigger] h[j])),
        decreases n - i,
    {
        let bytes = encode_transaction(&all[i], IntCoding::Leb128);
        let digest = blake3_hash(bytes.as_slice());
        let shown = hex_encode(&digest);
        assert(h[i as int] == all@[i as int]@);
        if starts_with(shown.as_str(), q) {
            return Some(i);
        }
        i = i + 1;
    }
    None
}

impl StateDB {
    /// The latest applied transaction whose index key (the BLAKE3 digest of
    /// its encoding with integers in seven-bit groups) is `hash_hex` read as
    /// hex; none when `hash_hex` is not hex or no transaction has that key.
    pub fn get_tx_by_hash(&self, hash_hex: &str) -> (r: Option<Transaction>)
        requires
            self.wf(),
        ensures
            ({
                let h = self@.history.reverse();
                match hex_decoded(hash_hex@) {
                    None => r is None,
                    Some(k) => match r {
                        Some(tx) => exists|i: int| #[trigger] first_indexed(h, k, i) && tx@ == h[i],
                        None => forall|i: int| 0 <= i < h.len() ==> index_key(#[trigger] h[i]) != k,
                    },
                }
            }),
    {
        let key = match hex_decode(hash_hex) {
            Some(k) => k,
            None => return None,
        };
        let total = self.history_len();
        let all = self.get_recent_txs(total);
        let ghost h = self@.history.reverse();
        assert(tx_views(all@) =~= h);
        match find_indexed(&all, key.as_slice()) {
            Some(i) => {
                assert(tx_views(all@)[i as int] == all@[i as int]@);
                Some(all[i].clone())
            },
            None => None,
        }
    }
}

/// The transaction that `hash` names: the latest applied one whose index
/// key is `hash` read as hex, if any; else the latest of the
/// `SEARCH_TXS` most recent whose shown hash begins with `hash`.
pub fn transaction_report(state: &StateDB, hash: &str) -> (r: Option<TxReport>)
    requires
        state.wf(),
    ensures
        ({
            let h = state@.history.reverse();
            let n = search_limit(h.len());
            let indexed = hex_decoded(hash@) matches Some(k) && exists|i: int| 0 <= i < h.len() && index_key(#[trigger] h[i]) == k;
            &&& r matches Some(rep) ==> rep.hash@ == shown_hash(rep.tx@)
            &&& indexed ==> (r matches Some(rep) && exists|i: int| #[trigger] first_indexed(h, hex_decoded(hash@)->0, i) && rep.tx@ == h[i])
            &&& !indexed ==> match r {
                    Some(rep) => exists|i: int| #[trigger] first_shown(h, n, hash@, i) && rep.tx@ == h[i],
                    None => forall|j: int| 0 <= j < n ==> !is_prefix(hash@, shown_hash(#[trigger] h[j])),
                }
        }),
{
    let total = state.history_len();
    let all = state.get_recent_txs(total);
    let ghost h = state@.history.reverse();
    assert(tx_views(all@) =~= h);
    let key_opt = hex_decode(hash);
    let idx = match &key_opt {
        Some(key) => find_indexed(&all, key.as_slice()),
        None => None,
    };
    if let Some(i) = idx {
        let rep = report_of(&all[i]);
        proof {
            let key = key_opt->0;
            assert(first_indexed(h, key@, i as int));
            assert(hex_decoded(hash@)->0 == key@);
        }
        return Some(rep);
    }
    proof {
        if hex_decoded(hash@) is Some {
            let k = hex_decoded(hash@)->0;
            assert(key_opt is Some);
            assert(key_opt->0@ == k);
            assert(forall|i: int| 0 <= i < h.len() ==> index_key(#[trigger] h[i]) != k);
        }
    }
    let n = if SEARCH_TXS < all.len() { SEARCH_TXS } else { all.len() };
    assert(n as int == search_limit(h.len()));
    match find_shown(&all, n, hash) {
        Some(i) => {
            let rep = report_of(&all[i]);
            assert(first_shown(h, search_limit(h.len()), hash@, i as int));
            assert(rep.tx@ == h[i as int]);
            Some(rep)
        },
        None => None,
    }
}

} // verus!
