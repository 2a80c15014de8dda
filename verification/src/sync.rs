//! DAG synchronisation between peers: the answer to each request a peer
//! sends, and what an answer received does to the local DAG and validator
//! set. Carrying the messages over the network is the application's.

use vstd::prelude::*;
use crate::consensus::{
    is_vertex_id, latest_vertices, vertex_views, Certificate, CertificateView, ConsensusEngine, Dag, DagView,
    Vertex, VertexId, VertexView,
};

verus! {

/// What a peer asks for.
pub enum ConsensusRequest {
    /// The vertex with this identifier.
    GetVertex(VertexId),
    /// The certificates of a round.
    GetCertificate(u64),
    /// The node's validator public key.
    GetValidatorKey,
    /// The recent vertices from a round on.
    SyncFrom(u64),
    Ping,
}

/// What a peer answers.
pub enum ConsensusResponse {
    Vertex(Option<Vertex>),
    Certificates(Vec<Certificate>),
    ValidatorKey(Vec<u8>),
    SyncBatch(Vec<Vertex>),
    Pong,
}

/// Most vertices looked at for one synchronisation batch.
pub const SYNC_BATCH_SIZE: usize = 50;

/// A vertex of round `from` or later.
pub open spec fn from_round(from: u64) -> spec_fn(VertexView) -> bool {
    |v: VertexView| v.round >= from
}

/// Views of a list of certificates.
pub open spec fn certificate_views(c: Seq<Certificate>) -> Seq<CertificateView> {
    c.map_values(|x: Certificate| x@)
}

/// `r` answers `request` on the DAG `dag` of a node whose validator key is
/// `own_key`: the vertex asked for (none when unknown), the certificates of
/// the round in the order received, the key, the vertices of round `from` or
/// later among the `SYNC_BATCH_SIZE` latest (latest first), or a pong.
pub open spec fn answers(dag: DagView, own_key: Seq<u8>, request: ConsensusRequest, r: ConsensusResponse) -> bool {
    match (request, r) {
        (ConsensusRequest::GetVertex(id), ConsensusResponse::Vertex(v)) => {
            &&& (v is None <==> !dag.vertices.contains_key(id@))
            &&& (v matches Some(x) ==> x@ == dag.vertices[id@])
        },
        (ConsensusRequest::GetCertificate(round), ConsensusResponse::Certificates(cs)) =>
            certificate_views(cs@) == if dag.certificates.contains_key(round) { dag.certificates[round] } else { Seq::empty() },
        (ConsensusRequest::GetValidatorKey, ConsensusResponse::ValidatorKey(k)) => k@ == own_key,
        (ConsensusRequest::SyncFrom(from), ConsensusResponse::SyncBatch(b)) => exists|keys: Seq<Seq<u8>>, recent: Seq<VertexView>| {
            &&& #[trigger] latest_vertices(dag.vertices, keys, recent)
            &&& recent.len() == if SYNC_BATCH_SIZE <= dag.vertices.dom().len() { SYNC_BATCH_SIZE as int } else { dag.vertices.dom().len() as int }
            &&& vertex_views(b@) == recent.filter(from_round(from))
        },
        (ConsensusRequest::Ping, ConsensusResponse::Pong) => true,
        _ => false,
    }
}

/// The answer of a node with DAG `dag` and validator key `own_validator_key`
/// to `request`.
pub fn answer_dag_request(dag: &Dag, own_validator_key: &Vec<u8>, request: &ConsensusRequest) -> (r: ConsensusResponse)
    ensures
        answers(dag@, own_validator_key@, *request, r),
{
    match request {
        ConsensusRequest::GetVertex(id) => ConsensusResponse::Vertex(dag.get_vertex(id)),
        ConsensusRequest::GetCertificate(round) => {
            let cs = dag.get_round_certificates(*round);
            proof {
                assert(certificate_views(cs@) =~= cs@.map_values(|c: Certificate| c@));
            }
            ConsensusResponse::Certificates(cs)
        },
        ConsensusRequest::GetValidatorKey => ConsensusResponse::ValidatorKey(own_validator_key.clone()),
        ConsensusRequest::SyncFrom(from) => {
            let from = *from;
            let recent = dag.recent_vertices(SYNC_BATCH_SIZE);
            let ghost rv = vertex_views(recent@);
            let mut batch: Vec<Vertex> = Vec::new();
            let mut i: usize = 0;
            while i < recent.len()
                invariant
                    i <= recent.len(),
                    rv == vertex_views(recent@),
                    vertex_views(batch@) == rv.take(i as int).filter(from_round(from)),
                decreases recent.len() - i,
            {
                let ghost before = batch@;
                proof {
                    reveal(Seq::filter);
                    assert(rv.take(i + 1).drop_last() =~= rv.take(i as int));
                    assert(rv.take(i + 1).last() == recent@[i as int]@);
                }
                if recent[i].round >= from {
                    batch.push(recent[i].clone());
                    assert(vertex_views(batch@) =~= vertex_views(before).push(recent@[i as int]@));
                }
                i = i + 1;
            }
            proof {
                assert(rv.take(recent@.len() as int) =~= rv);
            }
            ConsensusResponse::SyncBatch(batch)
        },
        ConsensusRequest::Ping => ConsensusResponse::Pong,
    }
}

/// The certificates after adding those of `cs` in order, each to its round.
pub open spec fn certificates_after(c: Map<u64, Seq<CertificateView>>, cs: Seq<CertificateView>) -> Map<u64, Seq<CertificateView>>
    decreases cs.len(),
{
    if cs.len() == 0 {
        c
    } else {
        let before = certificates_after(c, cs.drop_last());
        let cert = cs.last();
        before.insert(cert.round,
            if before.contains_key(cert.round) { before[cert.round] } else { Seq::empty() }.push(cert))
    }
}

/// The vertices after adding those of `vs` in order, the `i`-th under `ids[i]`.
pub open spec fn vertices_after(m: Map<Seq<u8>, VertexView>, vs: Seq<VertexView>, ids: Seq<Seq<u8>>) -> Map<Seq<u8>, VertexView>
    decreases vs.len(),
{
    if vs.len() == 0 {
        m
    } else {
        vertices_after(m, vs.drop_last(), ids.drop_last()).insert(ids.last(), vs.last())
    }
}

/// `ids[i]` is the identifier of `vs[i]`, for every `i`.
pub open spec fn identifies(vs: Seq<VertexView>, ids: Seq<Seq<u8>>) -> bool {
    &&& ids.len() == vs.len()
    &&& forall|i: int| 0 <= i < vs.len() ==> is_vertex_id(vs[i], #[trigger] ids[i])
}

/// `new` is `old` after taking in `response`: a vertex or a batch of
/// vertices is added to the DAG under its identifiers, certificates to
/// their rounds, a validator key to the validators (once); an empty vertex
/// answer or a pong changes nothing.
pub open spec fn takes_in(old: ConsensusEngine, new: ConsensusEngine, response: ConsensusResponse) -> bool {
    &&& new.mempool == old.mempool
    &&& new.state == old.state
    &&& new.threshold_mempool == old.threshold_mempool
    &&& new.round() == old.round()
    &&& new.committed() == old.committed()
    &&& match response {
        ConsensusResponse::ValidatorKey(k) => {
            &&& new.dag == old.dag
            &&& new.validator_list() == if old.validator_list().contains(k@) { old.validator_list() } else { old.validator_list().push(k@) }
        },
        ConsensusResponse::Vertex(Some(v)) => {
            &&& new.validator_list() == old.validator_list()
            &&& new.dag@.certificates == old.dag@.certificates
            &&& exists|id: Seq<u8>| #[trigger] is_vertex_id(v@, id) && new.dag@.vertices == old.dag@.vertices.insert(id, v@)
        },
        ConsensusResponse::SyncBatch(vs) => {
            &&& new.validator_list() == old.validator_list()
            &&& new.dag@.certificates == old.dag@.certificates
            &&& exists|ids: Seq<Seq<u8>>| #[trigger] identifies(vertex_views(vs@), ids)
                && new.dag@.vertices == vertices_after(old.dag@.vertices, vertex_views(vs@), ids)
        },
        ConsensusResponse::Certificates(cs) => {
            &&& new.validator_list() == old.validator_list()
            &&& new.dag@.vertices == old.dag@.vertices
            &&& new.dag@.certificates == certificates_after(old.dag@.certificates, certificate_views(cs@))
        },
        _ => new.dag == old.dag && new.validator_list() == old.validator_list(),
    }
}

/// Takes in a peer's answer (see `takes_in`).
pub fn apply_dag_response(engine: &mut ConsensusEngine, response: ConsensusResponse)
    requires
        old(engine).wf(),
    ensures
        final(engine).wf(),
        takes_in(*old(engine), *final(engine), response),
{
    match response {
        ConsensusResponse::Vertex(Some(v)) => {
            let ghost vv = v@;
            let id = engine.dag.insert_vertex(v);
            assert(is_vertex_id(vv, id@));
        },
        ConsensusResponse::Certificates(cs) => {
            let ghost c0 = engine.dag@.certificates;
            let mut rest = cs;
            let ghost total = cs@;
            let mut i: usize = 0;
            let n = rest.len();
            while i < n
                invariant
                    n == total.len(),
                    i <= n,
                    rest@ == total,
                    engine.dag@.vertices == old(engine).dag@.vertices,
                    engine.dag@.certificates == certificates_after(c0, certificate_views(total.take(i as int))),
                    c0 == old(engine).dag@.certificates,
                    engine.validators == old(engine).validators,
                    engine.mempool == old(engine).mempool,
                    engine.state == old(engine).state,
                    engine.threshold_mempool == old(engine).threshold_mempool,
                    engine.current_round == old(engine).current_round,
                    engine.committed_vertices == old(engine).committed_vertices,
                decreases n - i,
            {
                let c = rest[i].clone();
                proof {
                    let s = certificate_views(total.take(i + 1));
                    assert(s.drop_last() =~= certificate_views(total.take(i as int)));
                    assert(s.last() == total[i as int]@);
                }
                engine.dag.insert_certificate(c);
                i = i + 1;
            }
            proof {
                assert(total.take(n as int) =~= total);
            }
        },
        ConsensusResponse::ValidatorKey(k) => {
            engine.add_validator(k);
        },
        ConsensusResponse::SyncBatch(vs) => {
            let ghost all = vertex_views(vs@);
            let ghost m0 = engine.dag@.vertices;
            let ghost mut ids: Seq<Seq<u8>> = Seq::empty();
            let n = vs.len();
            let mut i: usize = 0;
            while i < n
                invariant
                    n == vs@.len(),
                    i <= n,
                    all == vertex_views(vs@),
                    identifies(all.take(i as int), ids),
                    engine.dag@.vertices == vertices_after(m0, all.take(i as int), ids),
                    m0 == old(engine).dag@.vertices,
                    engine.dag@.certificates == old(engine).dag@.certificates,
                    engine.validators == old(engine).validators,
                    engine.mempool == old(engine).mempool,
                    engine.state == old(engine).state,
                    engine.threshold_mempool == old(engine).threshold_mempool,
                    engine.current_round == old(engine).current_round,
                    engine.committed_vertices == old(engine).committed_vertices,
                decreases n - i,
            {
                let v = vs[i].clone();
                let id = engine.dag.insert_vertex(v);
                proof {
                    let t = all.take(i + 1);
                    assert(t.drop_last() =~= all.take(i as int));
                    assert(t.last() == all[i as int]);
                    let ids2 = ids.push(id@);
                    assert(ids2.drop_last() =~= ids);
                    assert forall|j: int| 0 <= j < t.len() implies is_vertex_id(t[j], #[trigger] ids2[j]) by {
                        if j < i {
                            assert(all.take(i as int)[j] == t[j]);
                            assert(ids[j] == ids2[j]);
                        }
                    }
                    ids = ids2;
                }
                i = i + 1;
            }
            proof {
                assert(all.take(n as int) =~= all);
            }
        },
        _ => {},
    }
}

/// Adding a list of vertices keeps every vertex held before and holds one
/// under each identifier of the list.
pub proof fn lemma_vertices_after_hold(m: Map<Seq<u8>, VertexView>, vs: Seq<VertexView>, ids: Seq<Seq<u8>>)
    requires
        ids.len() == vs.len(),
    ensures
        forall|i: int| 0 <= i < vs.len() ==> vertices_after(m, vs, ids).contains_key(#[trigger] ids[i]),
        forall|k: Seq<u8>| m.contains_key(k) ==> #[trigger] vertices_after(m, vs, ids).contains_key(k),
    decreases vs.len(),
{
    if vs.len() > 0 {
        lemma_vertices_after_hold(m, vs.drop_last(), ids.drop_last());
        assert forall|i: int| 0 <= i < vs.len() implies vertices_after(m, vs, ids).contains_key(#[trigger] ids[i]) by {
            if i < vs.len() - 1 {
                assert(ids.drop_last()[i] == ids[i]);
            }
        }
        assert forall|k: Seq<u8>| m.contains_key(k) implies #[trigger] vertices_after(m, vs, ids).contains_key(k) by {
            assert(vertices_after(m, vs.drop_last(), ids.drop_last()).contains_key(k));
        }
    }
}

/// A node that takes in a synchronisation batch still holds every vertex it
/// held, and then holds each vertex of the batch under its identifier.
pub proof fn lemma_sync_batch_held(old: ConsensusEngine, new: ConsensusEngine, batch: Vec<Vertex>)
    requires
        takes_in(old, new, ConsensusResponse::SyncBatch(batch)),
    ensures
        forall|k: Seq<u8>| old.dag@.vertices.contains_key(k) ==> #[trigger] new.dag@.vertices.contains_key(k),
        exists|ids: Seq<Seq<u8>>| {
            &&& #[trigger] identifies(vertex_views(batch@), ids)
            &&& forall|i: int| 0 <= i < ids.len() ==> new.dag@.vertices.contains_key(#[trigger] ids[i])
        },
{
    let ids = choose|ids: Seq<Seq<u8>>| #[trigger] identifies(vertex_views(batch@), ids)
        && new.dag@.vertices == vertices_after(old.dag@.vertices, vertex_views(batch@), ids);
    lemma_vertices_after_hold(old.dag@.vertices, vertex_views(batch@), ids);
}

} // verus!
