//! One tick of the node's round loop: when transactions wait, a vertex of
//! the next round is made over the certified vertices of the current one,
//! stored with the node's own certificate, the vertices that reached a
//! quorum of certificates are committed, the round advances and the mempool
//! keys rotate.

use vstd::prelude::*;
use crate::consensus::{
    VertexView, id_views, is_vertex_id, sorted_distinct_ids, strictly_sorted, without_etxs, without_txs, Certificate, CertificateView,
    ConsensusEngine, Vertex, VertexId, MAX_TXS_PER_VERTEX,
};
use crate::commits::commit_outcome;
use crate::chain::{EtxView, TxView};
use crate::outside::{drawn_from_etxs, drawn_from_txs};
use crate::crypto::CryptoError;
use crate::chain::{tx_views, Transaction};
use crate::ledger::apply_checked_all;

verus! {

/// What a round produced.
pub struct RoundReport {
    /// The vertex made, to broadcast.
    pub vertex: Vertex,
    /// The transactions it committed, in commit order.
    pub committed_txs: Vec<Transaction>,
    /// The new round's encapsulation key, when the keys rotated.
    pub rotated_ek: Option<Vec<u8>>,
}

/// The vertex identifiers that the certificates of round `round` name.
pub open spec fn certified_ids(certs: Map<u64, Seq<CertificateView>>, round: u64) -> Set<Seq<u8>> {
    if certs.contains_key(round) {
        certs[round].map_values(|c: CertificateView| c.vertex_id).to_set()
    } else {
        Set::empty()
    }
}

/// What a round's vertex took from the mempool and what committing did,
/// from `old` to `new`: the vertex carries transactions drawn from the
/// pending pools (all of them, or `MAX_TXS_PER_VERTEX` of each kind), they
/// leave the pools, and then the quorum vertices of the old round are
/// committed as `commit_outcome` says, yielding `committed` (nothing is
/// committed in round 0).
#[verifier::opaque]
pub open spec fn drawn_and_committed(old: ConsensusEngine, new: ConsensusEngine, vertex: VertexView, committed: Seq<TxView>) -> bool {
    exists|taken: Seq<TxView>, taken_enc: Seq<EtxView>| #[trigger] drawn_pair(old, new, vertex, committed, taken, taken_enc)
}

/// `drawn_and_committed` with the drawn transactions `taken` and `taken_enc`.
pub open spec fn drawn_pair(old: ConsensusEngine, new: ConsensusEngine, vertex: VertexView, committed: Seq<TxView>,
    taken: Seq<TxView>, taken_enc: Seq<EtxView>) -> bool {
    &&& taken.len() <= MAX_TXS_PER_VERTEX
    &&& taken.len() < MAX_TXS_PER_VERTEX ==> taken.len() == old.mempool@.pending.dom().len()
    &&& drawn_from_txs(taken, old.mempool@.pending)
    &&& taken_enc.len() <= MAX_TXS_PER_VERTEX
    &&& taken_enc.len() < MAX_TXS_PER_VERTEX ==> taken_enc.len() == old.mempool@.pending_encrypted.dom().len()
    &&& drawn_from_etxs(taken_enc, old.mempool@.pending_encrypted)
    &&& vertex.transactions == taken
    &&& vertex.encrypted_transactions == taken_enc
    &&& old.round() >= 1 ==> commit_outcome(new.dag@, old.committed(), old.round(), old.validator_list(),
            old.threshold_mempool@.dk, without_txs(old.mempool@.pending, taken),
            without_etxs(old.mempool@.pending_encrypted, taken_enc), new.committed(), new.mempool@.pending,
            new.mempool@.pending_encrypted, committed)
    &&& old.round() == 0 ==> committed.len() == 0 && new.committed() == old.committed()
            && new.mempool@.pending == without_txs(old.mempool@.pending, taken)
            && new.mempool@.pending_encrypted == without_etxs(old.mempool@.pending_encrypted, taken_enc)
}

/// One tick of the round loop. Nothing happens while no transaction waits.
/// Otherwise the mempool makes and signs a vertex of the next round, from
/// the transactions it draws from its pools (see `drawn_and_committed`), whose
/// parents are the distinct vertices certified in the current round, in
/// increasing order; the DAG takes it with a certificate carrying the
/// node's key and the vertex's signature; the engine commits the vertices
/// of the current round that two thirds of the validators certified (see
/// `ConsensusEngine::order_transactions`), applying their transactions to
/// the ledger in commit order;
/// the round advances and the threshold keys rotate to it (the new key is
/// reported when the rotation succeeds). A signing failure stops
/// the tick after the mempool gave up the transactions.
#[verifier::rlimit(100)]
#[verifier::spinoff_prover]
pub fn step_round(engine: &mut ConsensusEngine) -> (r: Result<Option<RoundReport>, CryptoError>)
    requires
        old(engine).wf(),
        old(engine).round() < u64::MAX - 1,
    ensures
        final(engine).wf(),
        old(engine).mempool@.pending.dom().len() == 0 ==> r == Ok::<Option<RoundReport>, CryptoError>(None) && *final(engine) == *old(engine),
        r is Err ==> r == Err::<Option<RoundReport>, CryptoError>(CryptoError::SigningError)
            && final(engine).dag == old(engine).dag && final(engine).round() == old(engine).round()
            && final(engine).state == old(engine).state && final(engine).validators == old(engine).validators
            && final(engine).committed_vertices == old(engine).committed_vertices
            && final(engine).threshold_mempool == old(engine).threshold_mempool,
        r matches Ok(None) ==> *final(engine) == *old(engine),
        r matches Ok(None) <==> old(engine).mempool@.pending.dom().len() == 0,
        r matches Ok(Some(rep)) ==> {
            let round = (old(engine).round() + 1) as u64;
            &&& old(engine).mempool@.pending.dom().len() > 0
            &&& rep.vertex@.round == round
            &&& strictly_sorted(rep.vertex@.parents)
            &&& rep.vertex@.parents.to_set() == certified_ids(old(engine).dag@.certificates, old(engine).round())
            &&& rep.vertex@.author == old(engine).mempool.keypair.public_key_spec()
            &&& exists|id: Seq<u8>| {
                    &&& #[trigger] is_vertex_id(rep.vertex@, id)
                    &&& final(engine).dag@.vertices == old(engine).dag@.vertices.insert(id, rep.vertex@)
                    &&& final(engine).dag@.certificates == old(engine).dag@.certificates.insert(round,
                            if old(engine).dag@.certificates.contains_key(round) { old(engine).dag@.certificates[round] } else { Seq::empty() }
                                .push(CertificateView { vertex_id: id, round, signatures: seq![(rep.vertex@.author, rep.vertex@.signature)] }))
                }
            &&& final(engine).round() == round
            &&& final(engine).validator_list() == old(engine).validator_list()
            &&& old(engine).committed().subset_of(final(engine).committed())
            &&& final(engine).state@ == apply_checked_all(old(engine).state@, tx_views(rep.committed_txs@))
            &&& (rep.rotated_ek matches Some(ek) ==> final(engine).threshold_mempool@.round == round
                    && final(engine).threshold_mempool@.ek == ek@)
        },
        r matches Ok(Some(rep)) ==> drawn_and_committed(*old(engine), *final(engine), rep.vertex@, tx_views(rep.committed_txs@)),
{
    if engine.mempool.pending_count() == 0 {
        return Ok(None);
    }
    let current = engine.current_round;
    let certs = engine.dag.get_round_certificates(current);
    let ghost cert_views = certs@.map_values(|c: Certificate| c@);
    let mut ids: Vec<VertexId> = Vec::new();
    let mut i: usize = 0;
    while i < certs.len()
        invariant
            i <= certs@.len(),
            cert_views == certs@.map_values(|c: Certificate| c@),
            id_views(ids@) == cert_views.take(i as int).map_values(|c: CertificateView| c.vertex_id),
        decreases certs.len() - i,
    {
        ids.push(certs[i].vertex_id);
        proof {
            assert(cert_views.take(i + 1).map_values(|c: CertificateView| c.vertex_id)
                =~= cert_views.take(i as int).map_values(|c: CertificateView| c.vertex_id).push(certs@[i as int].vertex_id@));
            assert(id_views(ids@) =~= cert_views.take(i as int).map_values(|c: CertificateView| c.vertex_id).push(certs@[i as int].vertex_id@));
        }
        i = i + 1;
    }
    proof {
        assert(cert_views.take(certs@.len() as int) =~= cert_views);
        assert(id_views(ids@).to_set() =~= certified_ids(engine.dag@.certificates, current));
    }
    let parents = sorted_distinct_ids(&ids);
    let ghost mp0 = engine.mempool@;
    let vertex = engine.mempool.create_vertex(current + 1, parents)?;
    let ghost (taken, taken_enc) = choose|taken: Seq<TxView>, taken_enc: Seq<EtxView>| {
        &&& taken.len() <= MAX_TXS_PER_VERTEX
        &&& taken.len() < MAX_TXS_PER_VERTEX ==> taken.len() == mp0.pending.dom().len()
        &&& drawn_from_txs(taken, mp0.pending)
        &&& taken_enc.len() <= MAX_TXS_PER_VERTEX
        &&& taken_enc.len() < MAX_TXS_PER_VERTEX ==> taken_enc.len() == mp0.pending_encrypted.dom().len()
        &&& drawn_from_etxs(taken_enc, mp0.pending_encrypted)
        &&& engine.mempool@.pending == without_txs(mp0.pending, taken)
        &&& engine.mempool@.pending_encrypted == without_etxs(mp0.pending_encrypted, taken_enc)
        &&& vertex@.transactions == taken
        &&& vertex@.encrypted_transactions == taken_enc
    };
    let author = engine.mempool.keypair.public_key();
    let signature = vertex.signature.clone();
    let ghost vv = vertex@;
    let id = engine.dag.insert_vertex(vertex.clone());
    let cert = Certificate { vertex_id: id, round: current + 1, signatures: vec![(author, signature)] };
    proof {
        assert(cert@.signatures =~= seq![(vv.author, vv.signature)]);
    }
    engine.dag.insert_certificate(cert);
    proof {
        assert(engine.mempool@.pending == without_txs(mp0.pending, taken));
        assert(engine.committed() == old(engine).committed());
        assert(engine.validator_list() == old(engine).validator_list());
        assert(engine.threshold_mempool == old(engine).threshold_mempool);
    }
    let ghost pre = *engine;
    let committed_txs = engine.order_transactions(current + 1);

    let ghost committed_view = engine.committed();
    let ghost mempool_view = engine.mempool@;
    let ghost dag_view = engine.dag@;
    let new_round = engine.advance_round();
    let rotated_ek = match engine.threshold_mempool.rotate_keys(new_round) {
        Ok(ek) => Some(ek),
        Err(_) => None,
    };
    let rep = RoundReport { vertex, committed_txs, rotated_ek };
    proof {
        assert(engine.committed() == committed_view);
        assert(engine.mempool@ == mempool_view);
        assert(engine.dag@ == dag_view);
        assert(rep.vertex@.transactions == taken);
        assert(drawn_pair(*old(engine), *engine, rep.vertex@, tx_views(rep.committed_txs@), taken, taken_enc));
        reveal(drawn_and_committed);
    }
    Ok(Some(rep))
}

} // verus!
