//! DAG consensus: vertices and their identifiers, the DAG of vertices and
//! certificates, the mempool, and the engine that elects round leaders and
//! commits vertices with their causal history in a deterministic order.

use vstd::prelude::*;
use crate::chain::{clone_bytes, tx_views, EncryptedTransaction, EtxView, Transaction, TxView};
use crate::codec::{
    encode_encrypted_list, encode_transactions, enc_etxs, enc_txs, enc_u64, push_u64, IntCoding,
};
use crate::codec::{encode_encrypted, encode_transaction, enc_etx, enc_tx, push_le, le_bytes, lemma_le_bytes_len};
use crate::crypto::{CryptoError, SigningKeyPair};
use crate::ledger::{apply_checked_all, lemma_apply_checked_concat, StateDB, StateStats};
use crate::threshold::ThresholdMempool;
use crate::commits::{
    ascending_ids, commit_outcome, commit_walk, decrypted_from, lemma_ascending_ids, lemma_ordered_yield_concat,
    lemma_ordered_yield_one, lemma_plain_of_concat, lemma_walk_extend, lemma_walk_list_step, lemma_walk_push,
    lemma_without_concat, ordered_yield, plain_of, quorum_targets, sealed_of, vertex_yield, walk_list,
};
use crate::outside::{
    blake3_digest, blake3_hash, certificate_entries, certificate_map_get, certificate_map_new, certificate_map_push,
    committed_members, committed_set_contains, committed_set_ids, committed_set_insert, committed_set_len,
    committed_set_new, drawn_from_etxs, drawn_from_txs, mldsa65_accepts, pending_etx_entries, pending_etx_insert,
    pending_etx_len, pending_etx_new, pending_etx_remove, pending_etx_take, pending_tx_entries, pending_tx_insert,
    pending_tx_len, pending_tx_new, pending_tx_remove, pending_tx_take, vertex_entries, vertex_map_get,
    vertex_map_ids, vertex_map_insert, vertex_map_len, vertex_map_new, CertificateMap, CommittedSet, PendingEtxMap,
    PendingTxMap, VertexMap,
};

verus! {

/// Identifier of a vertex: the BLAKE3 digest of its contents.
pub type VertexId = [u8; 32];

/// A DAG round.
pub type Round = u64;

/// Byte-wise lexicographic order: `a` comes strictly before `b`.
pub open spec fn lex_lt(a: Seq<u8>, b: Seq<u8>) -> bool
    decreases a.len(),
{
    if a.len() == 0 || b.len() == 0 {
        a.len() == 0 && b.len() > 0
    } else if a[0] != b[0] {
        a[0] < b[0]
    } else {
        lex_lt(a.drop_first(), b.drop_first())
    }
}

pub proof fn lemma_lex_irreflexive(a: Seq<u8>)
    ensures
        !lex_lt(a, a),
    decreases a.len(),
{
    if a.len() > 0 {
        lemma_lex_irreflexive(a.drop_first());
    }
}

pub proof fn lemma_lex_transitive(a: Seq<u8>, b: Seq<u8>, c: Seq<u8>)
    requires
        lex_lt(a, b),
        lex_lt(b, c),
    ensures
        lex_lt(a, c),
    decreases a.len(),
{
    if a.len() > 0 && b.len() > 0 && c.len() > 0 && a[0] == b[0] && b[0] == c[0] {
        lemma_lex_transitive(a.drop_first(), b.drop_first(), c.drop_first());
    }
}

proof fn lemma_lex_total(a: Seq<u8>, b: Seq<u8>)
    requires
        a.len() == b.len(),
        a != b,
    ensures
        lex_lt(a, b) || lex_lt(b, a),
    decreases a.len(),
{
    if a.len() == 0 {
        assert(a =~= b);
    } else if a[0] == b[0] {
        if a.drop_first() == b.drop_first() {
            assert(a =~= b) by {
                assert forall|i: int| 0 <= i < a.len() implies a[i] == b[i] by {
                    if i > 0 {
                        assert(a[i] == a.drop_first()[i - 1]);
                        assert(b[i] == b.drop_first()[i - 1]);
                    }
                }
            }
        }
        lemma_lex_total(a.drop_first(), b.drop_first());
    }
}

/// Identifiers in strictly increasing byte order.
pub open spec fn strictly_sorted(s: Seq<Seq<u8>>) -> bool {
    forall|i: int, j: int| 0 <= i < j < s.len() ==> lex_lt(#[trigger] s[i], #[trigger] s[j])
}

/// Views of a list of identifiers.
pub open spec fn id_views(v: Seq<VertexId>) -> Seq<Seq<u8>> {
    v.map_values(|id: VertexId| id@)
}

/// `a` comes strictly before `b` in byte order.
fn id_less(a: &VertexId, b: &VertexId) -> (r: bool)
    ensures
        r == lex_lt(a@, b@),
{
    let mut i: usize = 0;
    assert(a@.subrange(0, 32) =~= a@);
    assert(b@.subrange(0, 32) =~= b@);
    while i < 32
        invariant
            i <= 32,
            a@.len() == 32,
            b@.len() == 32,
            a@.subrange(0, i as int) == b@.subrange(0, i as int),
            lex_lt(a@, b@) == lex_lt(a@.subrange(i as int, 32), b@.subrange(i as int, 32)),
        decreases 32 - i,
    {
        let x = a[i];
        let y = b[i];
        let ghost sa = a@.subrange(i as int, 32);
        let ghost sb = b@.subrange(i as int, 32);
        assert(sa[0] == x && sb[0] == y);
        if x != y {
            return x < y;
        }
        assert(sa.drop_first() =~= a@.subrange(i + 1, 32));
        assert(sb.drop_first() =~= b@.subrange(i + 1, 32));
        assert(a@.subrange(0, i + 1) =~= b@.subrange(0, i + 1)) by {
            assert(a@.subrange(0, i + 1) =~= a@.subrange(0, i as int).push(x));
            assert(b@.subrange(0, i + 1) =~= b@.subrange(0, i as int).push(y));
        }
        i = i + 1;
    }
    assert(a@.subrange(32, 32).len() == 0);
    false
}

/// The distinct identifiers of `ids` in increasing byte order.
pub fn sorted_distinct_ids(ids: &Vec<VertexId>) -> (r: Vec<VertexId>)
    ensures
        strictly_sorted(id_views(r@)),
        id_views(r@).to_set() == id_views(ids@).to_set(),
{
    let mut out: Vec<VertexId> = Vec::new();
    let mut k: usize = 0;
    while k < ids.len()
        invariant
            k <= ids.len(),
            strictly_sorted(id_views(out@)),
            id_views(out@).to_set() == id_views(ids@.subrange(0, k as int)).to_set(),
        decreases ids.len() - k,
    {
        let x = ids[k];
        let mut p: usize = 0;
        while p < out.len() && id_less(&out[p], &x)
            invariant
                p <= out.len(),
                forall|q: int| 0 <= q < p ==> lex_lt(#[trigger] id_views(out@)[q], x@),
            decreases out.len() - p,
        {
            p = p + 1;
        }
        let ghost before = out@;
        let ghost bv = id_views(before);
        let same = p < out.len() && !id_less(&x, &out[p]);
        if same {
            proof {
                if id_views(out@)[p as int] != x@ {
                    lemma_lex_total(x@, id_views(out@)[p as int]);
                }
            }
            assert(id_views(out@)[p as int] == x@);
        } else {
            out.insert(p, x);
            proof {
                let nv = id_views(out@);
                assert(nv =~= bv.insert(p as int, x@));
                assert forall|i: int, j: int| 0 <= i < j < nv.len() implies lex_lt(#[trigger] nv[i], #[trigger] nv[j]) by {
                    if p < bv.len() {
                        assert(!lex_lt(bv[p as int], x@));
                        assert(lex_lt(x@, bv[p as int]));
                    }
                    if j == p {
                        assert(lex_lt(bv[i], x@));
                    } else if i == p {
                        assert(lex_lt(x@, bv[p as int]));
                        if j - 1 > p {
                            lemma_lex_transitive(x@, bv[p as int], bv[j - 1]);
                        }
                    } else if i < p && j > p {
                        assert(lex_lt(bv[i], x@));
                        assert(lex_lt(x@, bv[p as int]));
                        lemma_lex_transitive(bv[i], x@, bv[p as int]);
                        if j - 1 > p {
                            lemma_lex_transitive(bv[i], bv[p as int], bv[j - 1]);
                        }
                    }
                }
            }
        }
        proof {
            let prev = ids@.subrange(0, k as int);
            let next = ids@.subrange(0, k + 1);
            assert(id_views(next) =~= id_views(prev).push(x@));
            assert(id_views(out@).to_set() =~= id_views(next).to_set()) by {
                assert forall|e: Seq<u8>| id_views(out@).to_set().contains(e) <==> id_views(next).to_set().contains(e) by {
                    if id_views(out@).to_set().contains(e) {
                        let i = choose|i: int| 0 <= i < id_views(out@).len() && id_views(out@)[i] == e;
                        if e != x@ {
                            assert(bv.contains(e)) by {
                                if i < p {
                                    assert(bv[i] == e);
                                } else if same {
                                    assert(bv[i] == e);
                                } else {
                                    assert(bv[i - 1] == e);
                                }
                            }
                            assert(id_views(prev).to_set().contains(e));
                            let w = choose|w: int| 0 <= w < id_views(prev).len() && id_views(prev)[w] == e;
                            assert(id_views(next)[w] == e);
                        } else {
                            assert(id_views(next)[k as int] == e);
                        }
                    }
                    if id_views(next).to_set().contains(e) {
                        let w = choose|w: int| 0 <= w < id_views(next).len() && id_views(next)[w] == e;
                        if w < k {
                            assert(id_views(prev)[w] == e);
                            assert(id_views(prev).to_set().contains(e));
                            assert(bv.to_set().contains(e));
                            let i = choose|i: int| 0 <= i < bv.len() && bv[i] == e;
                            if same {
                                assert(id_views(out@)[i] == e);
                            } else if i < p {
                                assert(id_views(out@)[i] == e);
                            } else {
                                assert(id_views(out@)[i + 1] == e);
                            }
                        } else {
                            assert(e == x@);
                            assert(id_views(out@)[p as int] == e);
                        }
                    }
                }
            }
        }
        k = k + 1;
    }
    assert(ids@.subrange(0, ids.len() as int) =~= ids@);
    out
}


/// A DAG vertex: a round's batch of transactions from one author, pointing
/// at vertices of earlier rounds. `parents` is a set: order and repetition
/// carry no meaning.
pub struct Vertex {
    pub round: Round,
    pub parents: Vec<VertexId>,
    pub transactions: Vec<Transaction>,
    pub encrypted_transactions: Vec<EncryptedTransaction>,
    pub author: Vec<u8>,
    pub signature: Vec<u8>,
}

/// A vertex as a mathematical value.
pub struct VertexView {
    pub round: Round,
    pub parents: Seq<Seq<u8>>,
    pub transactions: Seq<TxView>,
    pub encrypted_transactions: Seq<EtxView>,
    pub author: Seq<u8>,
    pub signature: Seq<u8>,
}

impl View for Vertex {
    type V = VertexView;

    open spec fn view(&self) -> VertexView {
        VertexView {
            round: self.round,
            parents: id_views(self.parents@),
            transactions: self.transactions@.map_values(|t: Transaction| t@),
            encrypted_transactions: self.encrypted_transactions@.map_values(|e: EncryptedTransaction| e@),
            author: self.author@,
            signature: self.signature@,
        }
    }
}

fn clone_ids(v: &Vec<VertexId>) -> (r: Vec<VertexId>)
    ensures
        id_views(r@) == id_views(v@),
{
    let mut out: Vec<VertexId> = Vec::new();
    let mut i: usize = 0;
    while i < v.len()
        invariant
            i <= v.len(),
            out@.len() == i,
            forall|j: int| 0 <= j < i ==> (#[trigger] out@[j])@ == v@[j]@,
        decreases v.len() - i,
    {
        out.push(v[i]);
        i = i + 1;
    }
    assert(id_views(out@) =~= id_views(v@));
    out
}

fn clone_transactions(v: &Vec<Transaction>) -> (r: Vec<Transaction>)
    ensures
        r@.map_values(|t: Transaction| t@) == v@.map_values(|t: Transaction| t@),
{
    let mut out: Vec<Transaction> = Vec::new();
    let mut i: usize = 0;
    while i < v.len()
        invariant
            i <= v.len(),
            out@.len() == i,
            forall|j: int| 0 <= j < i ==> (#[trigger] out@[j])@ == v@[j]@,
        decreases v.len() - i,
    {
        out.push(v[i].clone());
        i = i + 1;
    }
    assert(out@.map_values(|t: Transaction| t@) =~= v@.map_values(|t: Transaction| t@));
    out
}

fn clone_encrypted(v: &Vec<EncryptedTransaction>) -> (r: Vec<EncryptedTransaction>)
    ensures
        r@.map_values(|e: EncryptedTransaction| e@) == v@.map_values(|e: EncryptedTransaction| e@),
{
    let mut out: Vec<EncryptedTransaction> = Vec::new();
    let mut i: usize = 0;
    while i < v.len()
        invariant
            i <= v.len(),
            out@.len() == i,
            forall|j: int| 0 <= j < i ==> (#[trigger] out@[j])@ == v@[j]@,
        decreases v.len() - i,
    {
        out.push(v[i].clone());
        i = i + 1;
    }
    assert(out@.map_values(|e: EncryptedTransaction| e@) =~= v@.map_values(|e: EncryptedTransaction| e@));
    out
}

impl Clone for Vertex {
    fn clone(&self) -> (r: Self)
        ensures
            r@ == self@,
    {
        Vertex {
            round: self.round,
            parents: clone_ids(&self.parents),
            transactions: clone_transactions(&self.transactions),
            encrypted_transactions: clone_encrypted(&self.encrypted_transactions),
            author: clone_bytes(&self.author),
            signature: clone_bytes(&self.signature),
        }
    }
}

/// The identifiers of `ids` written one after the other.
pub open spec fn concat_ids(ids: Seq<Seq<u8>>) -> Seq<u8>
    decreases ids.len(),
{
    if ids.len() == 0 {
        Seq::empty()
    } else {
        concat_ids(ids.drop_last()) + ids.last()
    }
}

/// What a vertex's identifier digests, given its parents in increasing
/// order: the round, the parents, the transactions, the encrypted
/// transactions (fixed-width encodings) and the author.
pub open spec fn vertex_digest_input(v: VertexView, sorted_parents: Seq<Seq<u8>>) -> Seq<u8> {
    enc_u64(v.round, IntCoding::Fixed) + concat_ids(sorted_parents) + enc_txs(v.transactions, IntCoding::Fixed)
        + enc_etxs(v.encrypted_transactions, IntCoding::Fixed) + v.author
}

/// `id` identifies `v`: it is the digest of the vertex with its distinct
/// parents in increasing order.
pub open spec fn is_vertex_id(v: VertexView, id: Seq<u8>) -> bool {
    exists|sp: Seq<Seq<u8>>|
        strictly_sorted(sp) && sp.to_set() == v.parents.to_set() && id == blake3_digest(#[trigger] vertex_digest_input(v, sp))
}

impl Vertex {
    /// The vertex's identifier.
    pub fn id(&self) -> (r: VertexId)
        ensures
            is_vertex_id(self@, r@),
    {
        let sorted = sorted_distinct_ids(&self.parents);
        let mut input: Vec<u8> = Vec::new();
        push_u64(&mut input, self.round, IntCoding::Fixed);
        let ghost head = input@;
        let mut i: usize = 0;
        while i < sorted.len()
            invariant
                i <= sorted.len(),
                input@ == head + concat_ids(id_views(sorted@.subrange(0, i as int))),
            decreases sorted.len() - i,
        {
            let id = sorted[i];
            let mut j: usize = 0;
            let ghost before = input@;
            while j < 32
                invariant
                    j <= 32,
                    input@ == before + id@.subrange(0, j as int),
                decreases 32 - j,
            {
                input.push(id[j]);
                assert(input@ =~= before + id@.subrange(0, j + 1));
                j = j + 1;
            }
            proof {
                let next = id_views(sorted@.subrange(0, i + 1));
                assert(next.drop_last() =~= id_views(sorted@.subrange(0, i as int)));
                assert(next.last() == id@);
                assert(id@.subrange(0, 32) =~= id@);
                assert(input@ =~= head + concat_ids(next));
            }
            i = i + 1;
        }
        assert(sorted@.subrange(0, sorted.len() as int) =~= sorted@);
        let txs = encode_transactions(self.transactions.as_slice(), IntCoding::Fixed);
        let etxs = encode_encrypted_list(self.encrypted_transactions.as_slice(), IntCoding::Fixed);
        let ghost mid = input@;
        let mut k: usize = 0;
        while k < txs.len()
            invariant
                k <= txs.len(),
                input@ == mid + txs@.subrange(0, k as int),
            decreases txs.len() - k,
        {
            input.push(txs[k]);
            assert(input@ =~= mid + txs@.subrange(0, k + 1));
            k = k + 1;
        }
        assert(txs@.subrange(0, txs.len() as int) =~= txs@);
        let ghost mid2 = input@;
        k = 0;
        while k < etxs.len()
            invariant
                k <= etxs.len(),
                input@ == mid2 + etxs@.subrange(0, k as int),
            decreases etxs.len() - k,
        {
            input.push(etxs[k]);
            assert(input@ =~= mid2 + etxs@.subrange(0, k + 1));
            k = k + 1;
        }
        assert(etxs@.subrange(0, etxs.len() as int) =~= etxs@);
        let ghost mid3 = input@;
        k = 0;
        while k < self.author.len()
            invariant
                k <= self.author.len(),
                input@ == mid3 + self.author@.subrange(0, k as int),
            decreases self.author.len() - k,
        {
            input.push(self.author[k]);
            assert(input@ =~= mid3 + self.author@.subrange(0, k + 1));
            k = k + 1;
        }
        assert(self.author@.subrange(0, self.author.len() as int) =~= self.author@);
        let r = blake3_hash(input.as_slice());
        proof {
            let sp = id_views(sorted@);
            assert(input@ =~= vertex_digest_input(self@, sp));
            assert(strictly_sorted(sp) && sp.to_set() == self@.parents.to_set());
        }
        r
    }
}

/// A certificate that a vertex of a round was accepted, with the
/// (public key, signature) pairs of its signers.
pub struct Certificate {
    pub vertex_id: VertexId,
    pub round: Round,
    pub signatures: Vec<(Vec<u8>, Vec<u8>)>,
}

/// A certificate as a mathematical value.
pub struct CertificateView {
    pub vertex_id: Seq<u8>,
    pub round: Round,
    pub signatures: Seq<(Seq<u8>, Seq<u8>)>,
}

impl View for Certificate {
    type V = CertificateView;

    open spec fn view(&self) -> CertificateView {
        CertificateView {
            vertex_id: self.vertex_id@,
            round: self.round,
            signatures: self.signatures@.map_values(|p: (Vec<u8>, Vec<u8>)| (p.0@, p.1@)),
        }
    }
}

impl Clone for Certificate {
    fn clone(&self) -> (r: Self)
        ensures
            r@ == self@,
    {
        let mut sigs: Vec<(Vec<u8>, Vec<u8>)> = Vec::new();
        let mut i: usize = 0;
        while i < self.signatures.len()
            invariant
                i <= self.signatures.len(),
                sigs@.len() == i,
                forall|j: int| 0 <= j < i ==> (#[trigger] sigs@[j]).0@ == self.signatures@[j].0@ && sigs@[j].1@ == self.signatures@[j].1@,
            decreases self.signatures.len() - i,
        {
            let pair = (clone_bytes(&self.signatures[i].0), clone_bytes(&self.signatures[i].1));
            sigs.push(pair);
            i = i + 1;
        }
        assert(sigs@.map_values(|p: (Vec<u8>, Vec<u8>)| (p.0@, p.1@))
            =~= self.signatures@.map_values(|p: (Vec<u8>, Vec<u8>)| (p.0@, p.1@)));
        Certificate { vertex_id: self.vertex_id, round: self.round, signatures: sigs }
    }
}


/// The DAG as a mathematical value.
pub struct DagView {
    pub vertices: Map<Seq<u8>, VertexView>,
    pub certificates: Map<u64, Seq<CertificateView>>,
}

/// The vertices and certificates received so far.
pub struct Dag {
    vertices: VertexMap,
    certificates: CertificateMap,
}

impl View for Dag {
    type V = DagView;

    closed spec fn view(&self) -> DagView {
        DagView { vertices: vertex_entries(self.vertices), certificates: certificate_entries(self.certificates) }
    }
}

/// The identifiers of a list of (round, identifier) pairs.
pub open spec fn order_keys(o: Seq<(u64, VertexId)>) -> Seq<Seq<u8>> {
    o.map_values(|q: (u64, VertexId)| q.1@)
}

/// Views of a list of vertices.
pub open spec fn vertex_views(v: Seq<Vertex>) -> Seq<VertexView> {
    v.map_values(|x: Vertex| x@)
}

/// Rounds never increase along `s`.
pub open spec fn rounds_nonincreasing(s: Seq<VertexView>) -> bool {
    forall|i: int, j: int| 0 <= i < j < s.len() ==> (#[trigger] s[i]).round >= (#[trigger] s[j]).round
}

/// `picked` lists, under the distinct identifiers `keys`, vertices of `m`
/// by nonincreasing round, and every vertex of `m` left out has a round no
/// later than any of them.
pub open spec fn latest_vertices(m: Map<Seq<u8>, VertexView>, keys: Seq<Seq<u8>>, picked: Seq<VertexView>) -> bool {
    &&& keys.len() == picked.len()
    &&& keys.no_duplicates()
    &&& forall|i: int| 0 <= i < keys.len() ==> m.contains_key(#[trigger] keys[i]) && picked[i] == m[keys[i]]
    &&& rounds_nonincreasing(picked)
    &&& forall|k: Seq<u8>, i: int| m.contains_key(k) && !keys.contains(k) && 0 <= i < picked.len()
            ==> #[trigger] m[k].round <= #[trigger] picked[i].round
}

impl Dag {
    /// An empty DAG.
    pub fn new() -> (d: Self)
        ensures
            d@.vertices.dom().is_empty(),
            d@.certificates.dom().is_empty(),
    {
        Dag { vertices: vertex_map_new(), certificates: certificate_map_new() }
    }

    /// Adds `vertex` under its identifier, which is returned.
    pub fn insert_vertex(&mut self, vertex: Vertex) -> (id: VertexId)
        ensures
            is_vertex_id(vertex@, id@),
            final(self)@.vertices == old(self)@.vertices.insert(id@, vertex@),
            final(self)@.certificates == old(self)@.certificates,
    {
        let id = vertex.id();
        vertex_map_insert(&mut self.vertices, id, vertex);
        id
    }

    /// The vertex with identifier `id`, if held.
    pub fn get_vertex(&self, id: &VertexId) -> (r: Option<Vertex>)
        ensures
            r is None <==> !self@.vertices.contains_key(id@),
            r matches Some(v) ==> v@ == self@.vertices[id@],
    {
        vertex_map_get(&self.vertices, id)
    }

    /// Adds `cert` to the certificates of its round.
    pub fn insert_certificate(&mut self, cert: Certificate)
        ensures
            final(self)@.vertices == old(self)@.vertices,
            final(self)@.certificates == old(self)@.certificates.insert(
                cert.round,
                if old(self)@.certificates.contains_key(cert.round) { old(self)@.certificates[cert.round] } else { Seq::empty() }.push(cert@),
            ),
    {
        let round = cert.round;
        certificate_map_push(&mut self.certificates, round, cert);
    }

    /// The certificates of `round`, in the order they were added.
    pub fn get_round_certificates(&self, round: Round) -> (r: Vec<Certificate>)
        ensures
            r@.map_values(|c: Certificate| c@) == if self@.certificates.contains_key(round) {
                self@.certificates[round]
            } else {
                Seq::empty()
            },
    {
        certificate_map_get(&self.certificates, round)
    }

    /// Number of vertices held.
    pub fn vertex_count(&self) -> (n: usize)
        ensures
            n == self@.vertices.dom().len(),
    {
        vertex_map_len(&self.vertices)
    }

    /// Identifiers of all the vertices held, each once.
    pub fn vertex_ids(&self) -> (r: Vec<VertexId>)
        ensures
            id_views(r@).no_duplicates(),
            id_views(r@).to_set() == self@.vertices.dom(),
    {
        let r = vertex_map_ids(&self.vertices);
        assert(id_views(r@) =~= r@.map_values(|id: [u8; 32]| id@));
        r
    }

    /// The `limit` latest vertices, latest round first.
    pub fn recent_vertices(&self, limit: usize) -> (r: Vec<Vertex>)
        ensures
            r@.len() == if limit <= self@.vertices.dom().len() { limit as int } else { self@.vertices.dom().len() as int },
            exists|keys: Seq<Seq<u8>>| #[trigger] latest_vertices(self@.vertices, keys, vertex_views(r@)),
    {
        let ghost m = self@.vertices;
        let ids = self.vertex_ids();
        // insertion sort of (round, id) by decreasing round, stable
        let mut order: Vec<(u64, VertexId)> = Vec::new();
        let mut k: usize = 0;
        while k < ids.len()
            invariant
                m == self@.vertices,
                id_views(ids@).no_duplicates(),
                id_views(ids@).to_set() == m.dom(),
                k <= ids.len(),
                order@.len() == k,
                forall|a: int| 0 <= a < k ==> m.contains_key(#[trigger] order@[a].1@) && order@[a].0 == m[order@[a].1@].round,
                forall|a: int, b: int| 0 <= a < b < k ==> (#[trigger] order@[a]).0 >= (#[trigger] order@[b]).0,
                order_keys(order@).to_set() == id_views(ids@.subrange(0, k as int)).to_set(),
                order_keys(order@).no_duplicates(),
            decreases ids.len() - k,
        {
            let id = ids[k];
            proof {
                assert(id_views(ids@)[k as int] == id@);
                assert(m.dom().contains(id@));
            }
            let v = match self.get_vertex(&id) {
                Some(v) => v,
                None => {
                    assert(false);
                    return Vec::new();
                },
            };
            let rd = v.round;
            let mut p: usize = 0;
            while p < order.len() && order[p].0 >= rd
                invariant
                    p <= order@.len(),
                    forall|a: int| 0 <= a < p ==> (#[trigger] order@[a]).0 >= rd,
                decreases order@.len() - p,
            {
                p = p + 1;
            }
            let ghost before = order@;
            proof {
                assert(!id_views(ids@.subrange(0, k as int)).contains(id@)) by {
                    if id_views(ids@.subrange(0, k as int)).contains(id@) {
                        let w = choose|w: int| 0 <= w < k && id_views(ids@.subrange(0, k as int))[w] == id@;
                        assert(id_views(ids@)[w] == id_views(ids@)[k as int]);
                    }
                }
                assert(!order_keys(before).contains(id@)) by {
                    if order_keys(before).contains(id@) {
                        let w = choose|w: int| 0 <= w < before.len() && order_keys(before)[w] == id@;
                        assert(order_keys(before).to_set().contains(id@));
                    }
                }
            }
            order.insert(p, (rd, id));
            proof {
                let bk = order_keys(before);
                let nk = order_keys(order@);
                let pre = id_views(ids@.subrange(0, k as int));
                let post = id_views(ids@.subrange(0, k + 1));
                assert(nk =~= bk.insert(p as int, id@));
                assert(post =~= pre.push(id@));
                assert(nk.to_set() =~= post.to_set()) by {
                    assert forall|e: Seq<u8>| nk.to_set().contains(e) <==> post.to_set().contains(e) by {
                        if nk.to_set().contains(e) {
                            let w = choose|w: int| 0 <= w < nk.len() && nk[w] == e;
                            if w < p {
                                assert(bk[w] == e);
                                assert(bk.to_set().contains(e));
                            } else if w > p {
                                assert(bk[w - 1] == e);
                                assert(bk.to_set().contains(e));
                            }
                            if e != id@ {
                                assert(pre.to_set().contains(e));
                                let z = choose|z: int| 0 <= z < k && pre[z] == e;
                                assert(post[z] == e);
                            } else {
                                assert(post[k as int] == e);
                            }
                        }
                        if post.to_set().contains(e) {
                            let z = choose|z: int| 0 <= z <= k && post[z] == e;
                            if z < k {
                                assert(pre[z] == e);
                                assert(bk.to_set().contains(e));
                                let w = choose|w: int| 0 <= w < bk.len() && bk[w] == e;
                                if w < p {
                                    assert(nk[w] == e);
                                } else {
                                    assert(nk[w + 1] == e);
                                }
                            } else {
                                assert(nk[p as int] == e);
                            }
                        }
                    }
                }
                assert forall|a: int, b: int| 0 <= a < b < nk.len() implies nk[a] != nk[b] by {
                    if a == p {
                        assert(bk[b - 1] == nk[b]);
                        assert(bk.contains(nk[b]));
                    } else if b == p {
                        assert(bk[a] == nk[a]);
                        assert(bk.contains(nk[a]));
                    } else {
                        let a2 = if a < p { a } else { a - 1 };
                        let b2 = if b < p { b } else { b - 1 };
                        assert(bk[a2] == nk[a] && bk[b2] == nk[b]);
                    }
                }
                assert forall|a: int, b: int| 0 <= a < b < order@.len() implies (#[trigger] order@[a]).0 >= (#[trigger] order@[b]).0 by {
                    if a == p {
                        if p < before.len() {
                            assert(before[p as int].0 < rd);
                        }
                        assert(order@[b] == before[b - 1]);
                        if b - 1 > p {
                            assert(before[p as int].0 >= before[b - 1].0);
                        }
                    } else if b == p {
                        assert(order@[a] == before[a]);
                    } else {
                        let a2 = if a < p { a } else { a - 1 };
                        let b2 = if b < p { b } else { b - 1 };
                        assert(order@[a] == before[a2] && order@[b] == before[b2]);
                    }
                }
                assert forall|a: int| 0 <= a < order@.len() implies m.contains_key(#[trigger] order@[a].1@) && order@[a].0 == m[order@[a].1@].round by {
                    if a < p {
                        assert(order@[a] == before[a]);
                    } else if a > p {
                        assert(order@[a] == before[a - 1]);
                    }
                }
            }
            k = k + 1;
        }
        proof {
            assert(ids@.subrange(0, ids.len() as int) =~= ids@);
        }
        let n = if limit <= order.len() { limit } else { order.len() };
        let mut out: Vec<Vertex> = Vec::new();
        let mut i: usize = 0;
        while i < n
            invariant
                m == self@.vertices,
                n <= order@.len(),
                i <= n,
                out@.len() == i,
                forall|a: int| 0 <= a < order@.len() ==> m.contains_key(#[trigger] order@[a].1@) && order@[a].0 == m[order@[a].1@].round,
                forall|a: int| 0 <= a < i ==> (#[trigger] out@[a])@ == m[order@[a].1@],
            decreases n - i,
        {
            let id = order[i].1;
            match self.get_vertex(&id) {
                Some(v) => out.push(v),
                None => {
                    assert(false);
                },
            }
            i = i + 1;
        }
        proof {
            let keys = order_keys(order@).subrange(0, n as int);
            let picked = vertex_views(out@);
            let all = order_keys(order@);
            assert(all.to_set() == m.dom());
            assert(keys.no_duplicates()) by {
                assert forall|a: int, b: int| 0 <= a < b < keys.len() implies keys[a] != keys[b] by {
                    assert(keys[a] == all[a] && keys[b] == all[b]);
                }
            }
            assert forall|a: int| 0 <= a < keys.len() implies m.contains_key(#[trigger] keys[a]) && picked[a] == m[keys[a]] by {
                assert(keys[a] == order@[a].1@);
            }
            assert(rounds_nonincreasing(picked)) by {
                assert forall|a: int, b: int| 0 <= a < b < picked.len() implies (#[trigger] picked[a]).round >= (#[trigger] picked[b]).round by {
                    assert(picked[a].round == order@[a].0);
                    assert(picked[b].round == order@[b].0);
                    assert(order@[a].0 >= order@[b].0);
                }
            }
            assert forall|kk: Seq<u8>, a: int| m.contains_key(kk) && !keys.contains(kk) && 0 <= a < picked.len()
                implies #[trigger] m[kk].round <= #[trigger] picked[a].round by {
                assert(all.to_set().contains(kk));
                let w = choose|w: int| 0 <= w < all.len() && all[w] == kk;
                if w < n {
                    assert(keys[w] == kk);
                }
                assert(order@[w].0 == m[kk].round);
                assert(picked[a].round == order@[a].0);
                assert(order@[a].0 >= order@[w].0);
            }
            assert(m.dom().len() == order@.len()) by {
                all.unique_seq_to_set();
            }
            assert(latest_vertices(m, keys, picked));
        }
        out
    }
}


/// Most transactions (and most encrypted transactions) a vertex carries.
pub const MAX_TXS_PER_VERTEX: usize = 500;

/// Key of a pending transaction: the BLAKE3 digest of its fixed-width encoding.
pub open spec fn tx_digest(t: TxView) -> Seq<u8> {
    blake3_digest(enc_tx(t, IntCoding::Fixed))
}

/// Key of a pending encrypted transaction: the BLAKE3 digest of its
/// fixed-width encoding.
pub open spec fn etx_digest(e: EtxView) -> Seq<u8> {
    blake3_digest(enc_etx(e, IntCoding::Fixed))
}

/// `m` without the entries under the digests of `txs`.
pub open spec fn without_txs(m: Map<Seq<u8>, TxView>, txs: Seq<TxView>) -> Map<Seq<u8>, TxView>
    decreases txs.len(),
{
    if txs.len() == 0 {
        m
    } else {
        without_txs(m, txs.drop_last()).remove(tx_digest(txs.last()))
    }
}

/// `m` without the entries under the digests of `etxs`.
pub open spec fn without_etxs(m: Map<Seq<u8>, EtxView>, etxs: Seq<EtxView>) -> Map<Seq<u8>, EtxView>
    decreases etxs.len(),
{
    if etxs.len() == 0 {
        m
    } else {
        without_etxs(m, etxs.drop_last()).remove(etx_digest(etxs.last()))
    }
}

/// Digest of a transaction's fixed-width encoding.
fn digest_of_tx(tx: &Transaction) -> (r: VertexId)
    ensures
        r@ == tx_digest(tx@),
{
    let enc = encode_transaction(tx, IntCoding::Fixed);
    blake3_hash(enc.as_slice())
}

/// Digest of an encrypted transaction's fixed-width encoding.
fn digest_of_etx(etx: &EncryptedTransaction) -> (r: VertexId)
    ensures
        r@ == etx_digest(etx@),
{
    let enc = encode_encrypted(etx, IntCoding::Fixed);
    blake3_hash(enc.as_slice())
}

/// The mempool as a mathematical value.
pub struct MempoolView {
    pub pending: Map<Seq<u8>, TxView>,
    pub pending_encrypted: Map<Seq<u8>, EtxView>,
}

/// Transactions waiting for a vertex, and the key that signs vertices.
pub struct Mempool {
    pub pending_transactions: PendingTxMap,
    pub pending_encrypted_transactions: PendingEtxMap,
    pub keypair: SigningKeyPair,
}

impl View for Mempool {
    type V = MempoolView;

    open spec fn view(&self) -> MempoolView {
        MempoolView {
            pending: pending_tx_entries(self.pending_transactions),
            pending_encrypted: pending_etx_entries(self.pending_encrypted_transactions),
        }
    }
}

fn remove_pending_txs(m: &mut PendingTxMap, txs: &Vec<Transaction>)
    ensures
        pending_tx_entries(*final(m)) == without_txs(pending_tx_entries(*old(m)), txs@.map_values(|t: Transaction| t@)),
{
    let ghost start = pending_tx_entries(*m);
    let ghost views = txs@.map_values(|t: Transaction| t@);
    let mut i: usize = 0;
    while i < txs.len()
        invariant
            views == txs@.map_values(|t: Transaction| t@),
            i <= txs.len(),
            pending_tx_entries(*m) == without_txs(start, views.subrange(0, i as int)),
        decreases txs.len() - i,
    {
        let id = digest_of_tx(&txs[i]);
        pending_tx_remove(m, &id);
        proof {
            let next = views.subrange(0, i + 1);
            assert(next.drop_last() =~= views.subrange(0, i as int));
        }
        i = i + 1;
    }
    assert(views.subrange(0, txs.len() as int) =~= views);
}

fn remove_pending_etxs(m: &mut PendingEtxMap, etxs: &Vec<EncryptedTransaction>)
    ensures
        pending_etx_entries(*final(m)) == without_etxs(pending_etx_entries(*old(m)), etxs@.map_values(|e: EncryptedTransaction| e@)),
{
    let ghost start = pending_etx_entries(*m);
    let ghost views = etxs@.map_values(|e: EncryptedTransaction| e@);
    let mut i: usize = 0;
    while i < etxs.len()
        invariant
            views == etxs@.map_values(|e: EncryptedTransaction| e@),
            i <= etxs.len(),
            pending_etx_entries(*m) == without_etxs(start, views.subrange(0, i as int)),
        decreases etxs.len() - i,
    {
        let id = digest_of_etx(&etxs[i]);
        pending_etx_remove(m, &id);
        proof {
            let next = views.subrange(0, i + 1);
            assert(next.drop_last() =~= views.subrange(0, i as int));
        }
        i = i + 1;
    }
    assert(views.subrange(0, etxs.len() as int) =~= views);
}

impl Mempool {
    /// An empty mempool signing with `keypair`.
    pub fn new(keypair: SigningKeyPair) -> (m: Self)
        ensures
            m@.pending.dom().is_empty(),
            m@.pending_encrypted.dom().is_empty(),
            m.keypair == keypair,
    {
        Mempool { pending_transactions: pending_tx_new(), pending_encrypted_transactions: pending_etx_new(), keypair }
    }

    /// Adds `tx` under its digest.
    pub fn add_transaction(&mut self, tx: Transaction)
        ensures
            final(self)@.pending == old(self)@.pending.insert(tx_digest(tx@), tx@),
            final(self)@.pending_encrypted == old(self)@.pending_encrypted,
            final(self).keypair == old(self).keypair,
    {
        let id = digest_of_tx(&tx);
        pending_tx_insert(&mut self.pending_transactions, id, tx);
    }

    /// Adds `etx` under its digest.
    pub fn add_encrypted_transaction(&mut self, etx: EncryptedTransaction)
        ensures
            final(self)@.pending_encrypted == old(self)@.pending_encrypted.insert(etx_digest(etx@), etx@),
            final(self)@.pending == old(self)@.pending,
            final(self).keypair == old(self).keypair,
    {
        let id = digest_of_etx(&etx);
        pending_etx_insert(&mut self.pending_encrypted_transactions, id, etx);
    }

    /// Number of pending plain transactions.
    pub fn pending_count(&self) -> (n: usize)
        ensures
            n == self@.pending.dom().len(),
    {
        pending_tx_len(&self.pending_transactions)
    }

    /// Number of pending encrypted transactions.
    pub fn pending_encrypted_count(&self) -> (n: usize)
        ensures
            n == self@.pending_encrypted.dom().len(),
    {
        pending_etx_len(&self.pending_encrypted_transactions)
    }

    /// Builds this node's vertex for `round` on `parents`: up to
    /// `MAX_TXS_PER_VERTEX` pending transactions and as many encrypted ones
    /// leave the mempool for it, and the vertex's identifier is signed.
    pub fn create_vertex(&mut self, round: Round, parents: Vec<VertexId>) -> (r: Result<Vertex, CryptoError>)
        requires
            old(self).keypair.wf(),
        ensures
            final(self).keypair == old(self).keypair,
            r is Err ==> r == Err::<Vertex, CryptoError>(CryptoError::SigningError),
            exists|taken: Seq<TxView>, taken_enc: Seq<EtxView>| {
                &&& taken.len() <= MAX_TXS_PER_VERTEX
                &&& taken.len() < MAX_TXS_PER_VERTEX ==> taken.len() == old(self)@.pending.dom().len()
                &&& drawn_from_txs(taken, old(self)@.pending)
                &&& taken_enc.len() <= MAX_TXS_PER_VERTEX
                &&& taken_enc.len() < MAX_TXS_PER_VERTEX ==> taken_enc.len() == old(self)@.pending_encrypted.dom().len()
                &&& drawn_from_etxs(taken_enc, old(self)@.pending_encrypted)
                &&& final(self)@.pending == without_txs(old(self)@.pending, taken)
                &&& final(self)@.pending_encrypted == without_etxs(old(self)@.pending_encrypted, taken_enc)
                &&& (r matches Ok(v) ==> {
                    &&& v@.round == round
                    &&& v@.parents == id_views(parents@)
                    &&& v@.transactions == taken
                    &&& v@.encrypted_transactions == taken_enc
                    &&& v@.author == old(self).keypair.public_key_spec()
                    &&& exists|id: Seq<u8>| #[trigger] is_vertex_id(v@, id)
                        && mldsa65_accepts(v@.author, id, v@.signature)
                })
            },
    {
        let txs = pending_tx_take(&self.pending_transactions, MAX_TXS_PER_VERTEX);
        let ghost taken = txs@.map_values(|t: Transaction| t@);
        remove_pending_txs(&mut self.pending_transactions, &txs);
        let etxs = pending_etx_take(&self.pending_encrypted_transactions, MAX_TXS_PER_VERTEX);
        let ghost taken_enc = etxs@.map_values(|e: EncryptedTransaction| e@);
        remove_pending_etxs(&mut self.pending_encrypted_transactions, &etxs);
        let author = self.keypair.public_key();
        let mut vertex = Vertex {
            round,
            parents,
            transactions: txs,
            encrypted_transactions: etxs,
            author,
            signature: Vec::new(),
        };
        let msg = vertex.id();
        let ghost unsigned = vertex@;
        match self.keypair.sign(&msg) {
            Ok(sig) => {
                vertex.signature = sig;
                proof {
                    assert(vertex_digest_input(vertex@, id_views(parents@)) == vertex_digest_input(unsigned, id_views(parents@)));
                    let sp = choose|sp: Seq<Seq<u8>>|
                        strictly_sorted(sp) && sp.to_set() == unsigned.parents.to_set() && msg@ == blake3_digest(#[trigger] vertex_digest_input(unsigned, sp));
                    assert(vertex_digest_input(vertex@, sp) == vertex_digest_input(unsigned, sp));
                    assert(is_vertex_id(vertex@, msg@));
                }
                Ok(vertex)
            },
            Err(_) => Err(CryptoError::SigningError),
        }
    }
}


/// Big-endian bytes of `v`.
pub open spec fn be_bytes(v: u64) -> Seq<u8> {
    le_bytes(v as nat, 8).reverse()
}

pub(crate) fn be_bytes_exec(v: u64) -> (r: Vec<u8>)
    ensures
        r@ == be_bytes(v),
{
    let mut le: Vec<u8> = Vec::new();
    push_le(&mut le, v, 8);
    assert(le@ =~= le_bytes(v as nat, 8));
    proof {
        lemma_le_bytes_len(v as nat, 8);
    }
    let mut out: Vec<u8> = Vec::new();
    let mut i: usize = 0;
    while i < 8
        invariant
            le@ == le_bytes(v as nat, 8),
            le@.len() == 8,
            i <= 8,
            out@.len() == i,
            forall|j: int| 0 <= j < i ==> out@[j] == le@[7 - j],
        decreases 8 - i,
    {
        out.push(le[7 - i]);
        i = i + 1;
    }
    assert(out@ =~= le@.reverse());
    out
}

/// Leader of `round` among `validators`: none when there are none, else
/// the validator at the first byte of the BLAKE3 digest of the round's
/// big-endian bytes, modulo their number.
pub open spec fn leader_of(validators: Seq<Seq<u8>>, round: u64) -> Seq<u8> {
    if validators.len() == 0 {
        Seq::empty()
    } else {
        validators[blake3_digest(be_bytes(round))[0] as int % validators.len() as int]
    }
}

/// Whether a certificate among `certs` for the vertex `id` carries a
/// signature by `signer` that ML-DSA-65 accepts on `id`.
pub open spec fn certifies(certs: Seq<CertificateView>, id: Seq<u8>, signer: Seq<u8>) -> bool {
    exists|j: int, l: int|
        #![trigger certs[j].signatures[l]]
        0 <= j < certs.len() && certs[j].vertex_id == id && 0 <= l < certs[j].signatures.len()
            && certs[j].signatures[l].0 == signer && mldsa65_accepts(signer, id, certs[j].signatures[l].1)
}

/// How many of the first `k` validator slots certified the vertex `id`.
pub open spec fn certifying_count(certs: Seq<CertificateView>, id: Seq<u8>, validators: Seq<Seq<u8>>, k: int) -> int
    decreases k,
{
    if k <= 0 {
        0
    } else {
        certifying_count(certs, id, validators, k - 1) + if certifies(certs, id, validators[k - 1]) { 1int } else { 0int }
    }
}

/// The certificates stored for `round`, in the order they were added.
pub open spec fn round_certificates(m: Map<u64, Seq<CertificateView>>, round: u64) -> Seq<CertificateView> {
    if m.contains_key(round) { m[round] } else { Seq::empty() }
}

/// Whether the vertex `id` of `round` is certified by at least two thirds
/// of the validators (of whom there is at least one).
pub open spec fn has_quorum(dag: DagView, round: u64, id: Seq<u8>, validators: Seq<Seq<u8>>) -> bool {
    &&& validators.len() > 0
    &&& 3 * certifying_count(round_certificates(dag.certificates, round), id, validators, validators.len() as int)
            >= 2 * validators.len()
}

/// Views of a list of certificates.
pub open spec fn cert_views(v: Seq<Certificate>) -> Seq<CertificateView> {
    v.map_values(|c: Certificate| c@)
}

/// Whether a certificate among `certs` for `id` carries a valid signature by `signer`.
fn certified_by(certs: &Vec<Certificate>, id: &VertexId, signer: &Vec<u8>) -> (b: bool)
    ensures
        b == certifies(cert_views(certs@), id@, signer@),
{
    let ghost cv = cert_views(certs@);
    let mut j: usize = 0;
    while j < certs.len()
        invariant
            cv == cert_views(certs@),
            j <= certs.len(),
            forall|jj: int, l: int|
                #![trigger cv[jj].signatures[l]]
                0 <= jj < j && cv[jj].vertex_id == id@ && 0 <= l < cv[jj].signatures.len()
                    ==> !(cv[jj].signatures[l].0 == signer@ && mldsa65_accepts(signer@, id@, cv[jj].signatures[l].1)),
        decreases certs.len() - j,
    {
        let c = &certs[j];
        assert(cv[j as int] == c@);
        if crate::chain::bytes_equal(&c.vertex_id, id) {
            let mut l: usize = 0;
            while l < c.signatures.len()
                invariant
                    cv == cert_views(certs@),
                    j < certs.len(),
                    cv[j as int] == c@,
                    cv[j as int].vertex_id == id@,
                    l <= c.signatures.len(),
                    forall|jj: int, ll: int|
                        #![trigger cv[jj].signatures[ll]]
                        0 <= jj < j && cv[jj].vertex_id == id@ && 0 <= ll < cv[jj].signatures.len()
                            ==> !(cv[jj].signatures[ll].0 == signer@ && mldsa65_accepts(signer@, id@, cv[jj].signatures[ll].1)),
                    forall|ll: int|
                        0 <= ll < l ==> !(#[trigger] cv[j as int].signatures[ll].0 == signer@
                            && mldsa65_accepts(signer@, id@, cv[j as int].signatures[ll].1)),
                decreases c.signatures.len() - l,
            {
                let pair = &c.signatures[l];
                assert(cv[j as int].signatures[l as int] == (pair.0@, pair.1@));
                if crate::chain::bytes_equal(pair.0.as_slice(), signer.as_slice()) {
                    if crate::crypto::Verifier::verify(signer.as_slice(), id, pair.1.as_slice()).is_ok() {
                        assert(cv[j as int].signatures[l as int].0 == signer@);
                        return true;
                    }
                }
                l = l + 1;
            }
        }
        j = j + 1;
    }
    false
}

/// Whether at least two thirds of `validators` (at least one) certified `id`
/// among `certs`.
fn quorum_reached(certs: &Vec<Certificate>, id: &VertexId, validators: &Vec<Vec<u8>>) -> (b: bool)
    ensures
        b == (validators@.len() > 0 && 3 * certifying_count(cert_views(certs@), id@,
            byte_views(validators@), validators@.len() as int) >= 2 * validators@.len()),
{
    let ghost cv = cert_views(certs@);
    let ghost vs = byte_views(validators@);
    let n = validators.len();
    if n == 0 {
        return false;
    }
    let mut count: usize = 0;
    let mut i: usize = 0;
    while i < n
        invariant
            n == validators@.len(),
            vs == byte_views(validators@),
            cv == cert_views(certs@),
            i <= n,
            count <= i,
            count == certifying_count(cv, id@, vs, i as int),
        decreases n - i,
    {
        assert(vs[i as int] == validators@[i as int]@);
        let signed = certified_by(certs, id, &validators[i]);
        assert(certifying_count(cv, id@, vs, i + 1) == certifying_count(cv, id@, vs, i as int)
            + if certifies(cv, id@, vs[i as int]) { 1int } else { 0int });
        if signed {
            count = count + 1;
        }
        i = i + 1;
    }
    (count as u128) * 3 >= (n as u128) * 2
}

/// Counters shown by the dashboard.
pub struct ConsensusSummary {
    pub current_round: u64,
    pub validator_count: usize,
    pub pending_txs: usize,
    pub committed_vertices: usize,
    pub total_vertices: usize,
    pub account_count: usize,
    pub tx_count: usize,
    pub fee_pool_balance: u64,
}

/// The consensus engine: the DAG, the mempools, the ledger, the validator
/// set, the current round and the vertices already committed.
pub struct ConsensusEngine {
    pub dag: Dag,
    pub mempool: Mempool,
    pub state: StateDB,
    pub threshold_mempool: ThresholdMempool,
    pub validators: Vec<Vec<u8>>,
    pub current_round: u64,
    pub committed_vertices: CommittedSet,
}

/// Views of a list of byte strings.
pub open spec fn byte_views(v: Seq<Vec<u8>>) -> Seq<Seq<u8>> {
    v.map_values(|b: Vec<u8>| b@)
}

impl ConsensusEngine {
    /// The validators, in the order they were registered.
    pub open spec fn validator_list(&self) -> Seq<Seq<u8>> {
        byte_views(self.validators@)
    }

    /// The current round.
    pub open spec fn round(&self) -> u64 {
        self.current_round
    }

    /// Identifiers of the committed vertices.
    pub open spec fn committed(&self) -> Set<Seq<u8>> {
        committed_members(self.committed_vertices)
    }

    /// The parts that carry invariants are well formed.
    pub open spec fn wf(&self) -> bool {
        &&& self.state.wf()
        &&& self.threshold_mempool.wf()
        &&& self.mempool.keypair.wf()
    }

    /// An engine over the given parts, at `current_round`, with `committed`
    /// already committed.
    pub fn new(
        dag: Dag,
        mempool: Mempool,
        state: StateDB,
        threshold_mempool: ThresholdMempool,
        validators: Vec<Vec<u8>>,
        current_round: u64,
        committed: &[VertexId],
    ) -> (e: Self)
        ensures
            e.dag == dag,
            e.mempool == mempool,
            e.state == state,
            e.threshold_mempool == threshold_mempool,
            e.validator_list() == byte_views(validators@),
            e.round() == current_round,
            e.committed() == committed@.map_values(|id: VertexId| id@).to_set(),
    {
        let mut set = committed_set_new();
        let mut i: usize = 0;
        while i < committed.len()
            invariant
                i <= committed.len(),
                committed_members(set) == committed@.subrange(0, i as int).map_values(|id: VertexId| id@).to_set(),
            decreases committed.len() - i,
        {
            committed_set_insert(&mut set, committed[i]);
            proof {
                let pre = committed@.subrange(0, i as int).map_values(|id: VertexId| id@);
                let post = committed@.subrange(0, i + 1).map_values(|id: VertexId| id@);
                let x = committed@[i as int]@;
                assert(post =~= pre.push(x));
                assert forall|e: Seq<u8>| post.to_set().contains(e) <==> pre.to_set().insert(x).contains(e) by {
                    if post.to_set().contains(e) {
                        let j = choose|j: int| 0 <= j < post.len() && post[j] == e;
                        if j < pre.len() {
                            assert(pre[j] == e);
                        }
                    }
                    if pre.to_set().contains(e) {
                        let j = choose|j: int| 0 <= j < pre.len() && pre[j] == e;
                        assert(post[j] == e);
                    }
                    if e == x {
                        assert(post[pre.len() as int] == e);
                    }
                }
                assert(post.to_set() =~= pre.to_set().insert(x));
            }
            i = i + 1;
        }
        assert(committed@.subrange(0, committed.len() as int) =~= committed@);
        ConsensusEngine {
            dag,
            mempool,
            state,
            threshold_mempool,
            validators,
            current_round,
            committed_vertices: set,
        }
    }

    /// Registers `pubkey` as a validator unless it already is one.
    pub fn add_validator(&mut self, pubkey: Vec<u8>)
        ensures
            final(self).validator_list() == if old(self).validator_list().contains(pubkey@) {
                old(self).validator_list()
            } else {
                old(self).validator_list().push(pubkey@)
            },
            final(self).round() == old(self).round(),
            final(self).committed() == old(self).committed(),
            final(self).dag == old(self).dag,
            final(self).mempool == old(self).mempool,
            final(self).state == old(self).state,
            final(self).threshold_mempool == old(self).threshold_mempool,
    {
        let ghost vs = byte_views(self.validators@);
        let mut found = false;
        let mut i: usize = 0;
        while i < self.validators.len()
            invariant
                vs == byte_views(self.validators@),
                i <= self.validators.len(),
                found <==> exists|j: int| 0 <= j < i && vs[j] == pubkey@,
            decreases self.validators.len() - i,
        {
            assert(vs[i as int] == self.validators@[i as int]@);
            if crate::chain::bytes_equal(self.validators[i].as_slice(), pubkey.as_slice()) {
                found = true;
            }
            i = i + 1;
        }
        proof {
            if vs.contains(pubkey@) {
                let j = choose|j: int| 0 <= j < vs.len() && vs[j] == pubkey@;
                assert(exists|j: int| 0 <= j < vs.len() && vs[j] == pubkey@);
            }
            if found {
                let j = choose|j: int| 0 <= j < vs.len() && vs[j] == pubkey@;
                assert(vs.contains(pubkey@));
            }
        }
        if !found {
            self.validators.push(pubkey);
            assert(byte_views(self.validators@) =~= vs.push(pubkey@));
        }
    }

    /// Number of validators.
    pub fn validator_count(&self) -> (n: usize)
        ensures
            n == self.validator_list().len(),
    {
        self.validators.len()
    }

    /// The current round.
    pub fn get_current_round(&self) -> (r: u64)
        ensures
            r == self.round(),
    {
        self.current_round
    }

    /// Moves to the next round and returns it.
    pub fn advance_round(&mut self) -> (r: u64)
        requires
            old(self).round() < u64::MAX,
        ensures
            r == old(self).round() + 1,
            final(self).round() == r,
            final(self).validator_list() == old(self).validator_list(),
            final(self).committed() == old(self).committed(),
            final(self).dag == old(self).dag,
            final(self).mempool == old(self).mempool,
            final(self).state == old(self).state,
            final(self).threshold_mempool == old(self).threshold_mempool,
    {
        self.current_round = self.current_round + 1;
        self.current_round
    }

    /// The leader of `round`.
    pub fn get_leader(&self, round: Round) -> (r: Vec<u8>)
        ensures
            r@ == leader_of(self.validator_list(), round),
    {
        if self.validators.len() == 0 {
            return Vec::new();
        }
        let seed_input = be_bytes_exec(round);
        let digest = blake3_hash(seed_input.as_slice());
        let seed = digest[0] as usize;
        let idx = seed % self.validators.len();
        clone_bytes(&self.validators[idx])
    }

    /// Identifiers of the committed vertices, each once.
    pub fn committed_ids(&self) -> (r: Vec<VertexId>)
        ensures
            id_views(r@).no_duplicates(),
            id_views(r@).to_set() == self.committed(),
    {
        let r = committed_set_ids(&self.committed_vertices);
        assert(id_views(r@) =~= r@.map_values(|id: [u8; 32]| id@));
        r
    }

    /// Commits the vertex `id` after its uncommitted ancestors, parents in
    /// increasing identifier order, and returns their transactions in that
    /// order: the plain ones of each vertex, then those of its encrypted
    /// ones that decrypt (see `commit_walk`, `ordered_yield`). Each committed
    /// vertex's transactions are applied to the ledger and leave the mempool.
    /// Only vertices of rounds before `bound` are followed, so a parent from
    /// the same or a later round is not committed through its child.
    #[verifier::rlimit(60)]
    fn commit_vertex_recursive(&mut self, id: VertexId, bound: u64) -> (r: Vec<Transaction>)
        requires
            old(self).wf(),
        ensures
            final(self).wf(),
            final(self).dag == old(self).dag,
            final(self).validator_list() == old(self).validator_list(),
            final(self).round() == old(self).round(),
            final(self).mempool.keypair == old(self).mempool.keypair,
            final(self).threshold_mempool == old(self).threshold_mempool,
            ({
                let m = old(self).dag@.vertices;
                let walked = commit_walk(m, old(self).committed(), id@, bound);
                &&& final(self).committed() == old(self).committed() + walked.to_set()
                &&& ordered_yield(old(self).threshold_mempool@.dk, m, walked, tx_views(r@))
                &&& final(self).mempool@.pending == without_txs(old(self).mempool@.pending, plain_of(m, walked))
                &&& final(self).mempool@.pending_encrypted
                    == without_etxs(old(self).mempool@.pending_encrypted, sealed_of(m, walked))
            }),
            forall|k: Seq<u8>| #[trigger] final(self).committed().contains(k) && !old(self).committed().contains(k)
                ==> old(self).dag@.vertices.contains_key(k) && old(self).dag@.vertices[k].round < bound
                    && (k == id@ || old(self).dag@.vertices[k].round < old(self).dag@.vertices[id@].round),
            old(self).dag@.vertices.contains_key(id@) && old(self).dag@.vertices[id@].round < bound
                ==> final(self).committed().contains(id@),
            old(self).committed().contains(id@) ==> r@.len() == 0 && *final(self) == *old(self),
            final(self).state@ == apply_checked_all(old(self).state@, tx_views(r@)),
            final(self).state.dex_state() == old(self).state.dex_state(),
            final(self).state.token_state() == old(self).state.token_state(),
        decreases bound,
    {
        let ghost m = self.dag@.vertices;
        let ghost c0 = self.committed();
        let ghost p0 = self.mempool@.pending;
        let ghost e0 = self.mempool@.pending_encrypted;
        let ghost dk = self.threshold_mempool@.dk;
        if committed_set_contains(&self.committed_vertices, &id) {
            proof {
                assert(c0 + Seq::<Seq<u8>>::empty().to_set() =~= c0);
            }
            return Vec::new();
        }
        let v = match self.dag.get_vertex(&id) {
            None => {
                proof {
                    assert(c0 + Seq::<Seq<u8>>::empty().to_set() =~= c0);
                }
                return Vec::new();
            },
            Some(v) => v,
        };
        if v.round >= bound {
            proof {
                assert(c0 + Seq::<Seq<u8>>::empty().to_set() =~= c0);
            }
            return Vec::new();
        }
        let ghost dag0 = self.dag;
        let ghost tm0 = self.threshold_mempool;
        let ghost vals0 = self.validator_list();
        let ghost kp0 = self.mempool.keypair;
        let ghost s0 = self.state@;
        let ghost dex0 = self.state.dex_state();
        let ghost tok0 = self.state.token_state();
        let parents = sorted_distinct_ids(&v.parents);
        let ghost ps = id_views(parents@);
        proof {
            lemma_ascending_ids(ps);
            assert(ps == ascending_ids(m[id@].parents.to_set()));
        }
        let ghost mut walked: Seq<Seq<u8>> = Seq::empty();
        let mut ordered: Vec<Transaction> = Vec::new();
        let mut i: usize = 0;
        proof {
            assert(ps.subrange(0, ps.len() as int) =~= ps);
            assert(c0 + walked.to_set() =~= c0);
        }
        while i < parents.len()
            invariant
                self.wf(),
                self.dag == dag0,
                m == dag0@.vertices,
                self.threshold_mempool == tm0,
                dk == tm0@.dk,
                self.validator_list() == vals0,
                self.round() == old(self).round(),
                self.mempool.keypair == kp0,
                c0 == old(self).committed(),
                dag0 == old(self).dag,
                tm0 == old(self).threshold_mempool,
                ps == id_views(parents@),
                ps.len() == parents@.len(),
                c0.subset_of(self.committed()),
                forall|k: Seq<u8>| #[trigger] self.committed().contains(k) && !c0.contains(k) ==> dag0@.vertices.contains_key(k)
                    && dag0@.vertices[k].round < v.round,
                v.round < bound,
                v@ == dag0@.vertices[id@],
                i <= parents.len(),
                s0 == old(self).state@,
                dex0 == old(self).state.dex_state(),
                tok0 == old(self).state.token_state(),
                p0 == old(self).mempool@.pending,
                e0 == old(self).mempool@.pending_encrypted,
                self.state@ == apply_checked_all(s0, tx_views(ordered@)),
                self.state.dex_state() == dex0,
                self.state.token_state() == tok0,
                self.committed() == c0 + walked.to_set(),
                walked + walk_list(m, c0 + walked.to_set(), ps.subrange(i as int, ps.len() as int), v.round)
                    == walk_list(m, c0, ps, v.round),
                ordered_yield(dk, m, walked, tx_views(ordered@)),
                self.mempool@.pending == without_txs(p0, plain_of(m, walked)),
                self.mempool@.pending_encrypted == without_etxs(e0, sealed_of(m, walked)),
            decreases parents.len() - i,
        {
            let ghost before = ordered@;
            let ghost cb = self.committed();
            let ghost pb = self.mempool@.pending;
            let ghost eb = self.mempool@.pending_encrypted;
            proof {
                assert(ps[i as int] == parents@[i as int]@);
            }
            let mut sub = self.commit_vertex_recursive(parents[i], v.round);
            let ghost subv = sub@;
            let ghost step = commit_walk(m, cb, ps[i as int], v.round);
            ordered.append(&mut sub);
            proof {
                assert(tx_views(ordered@) =~= tx_views(before) + tx_views(subv));
                lemma_apply_checked_concat(s0, tx_views(before), tx_views(subv));
                lemma_walk_list_step(m, c0, walked, ps, i as int, v.round);
                lemma_walk_extend(dk, m, walked, tx_views(before), step, tx_views(subv), p0, e0);
                walked = walked + step;
            }
            i = i + 1;
        }
        proof {
            assert(ps.subrange(ps.len() as int, ps.len() as int) =~= Seq::<Seq<u8>>::empty());
            assert(walked + Seq::<Seq<u8>>::empty() =~= walked);
            assert(walked == walk_list(m, c0, ps, v.round));
            assert(commit_walk(m, c0, id@, bound) == walked.push(id@));
        }
        let ghost cw = self.committed();
        let ghost pw = self.mempool@.pending;
        let ghost ew = self.mempool@.pending_encrypted;
        let ghost ordered_w = tx_views(ordered@);
        committed_set_insert(&mut self.committed_vertices, id);
        proof {
            lemma_walk_push(m, c0, walked, id@);
            assert(self.committed() == c0 + walked.push(id@).to_set());
        }
        if v.transactions.len() > 0 || v.encrypted_transactions.len() > 0 {
            let mut all_txs = clone_transactions(&v.transactions);
            let ghost plain = v@.transactions;
            let ghost etxs = v@.encrypted_transactions;
            let ghost mut dec: Seq<TxView> = Seq::empty();
            let mut j: usize = 0;
            proof {
                assert(etxs.take(0) =~= Seq::<EtxView>::empty());
                assert(tx_views(all_txs@) =~= plain + dec);
            }
            while j < v.encrypted_transactions.len()
                invariant
                    self.wf(),
                    self.threshold_mempool == tm0,
                    dk == tm0@.dk,
                    j <= v.encrypted_transactions.len(),
                    etxs == v@.encrypted_transactions,
                    tx_views(all_txs@) == plain + dec,
                    decrypted_from(dk, etxs.take(j as int), dec),
                decreases v.encrypted_transactions.len() - j,
            {
                let ghost d0 = dec;
                proof {
                    assert(etxs.take(j + 1).drop_last() =~= etxs.take(j as int));
                    assert(etxs.take(j + 1).last() == v.encrypted_transactions@[j as int]@);
                }
                let ghost pre = all_txs@;
                match self.threshold_mempool.finalize_transaction(&v.encrypted_transactions[j]) {
                    Ok(tx) => {
                        all_txs.push(tx);
                        proof {
                            dec = d0.push(tx@);
                            assert(dec.drop_last() =~= d0);
                            assert(tx_views(all_txs@) =~= tx_views(pre).push(tx@));
                            assert(plain + d0.push(tx@) =~= (plain + d0).push(tx@));
                        }
                    },
                    Err(_) => {},
                }
                j = j + 1;
            }
            proof {
                assert(etxs.take(etxs.len() as int) =~= etxs);
                let b = plain + dec;
                assert(b.take(plain.len() as int) =~= plain);
                assert(b.skip(plain.len() as int) =~= dec);
                assert(vertex_yield(dk, m[id@], b));
            }
            let ghost c1 = self.committed();
            let ghost s1 = self.state@;
            let mut k: usize = 0;
            while k < all_txs.len()
                invariant
                    self.wf(),
                    self.dag == dag0,
                    self.threshold_mempool == tm0,
                    self.validator_list() == vals0,
                    self.round() == old(self).round(),
                    self.mempool.keypair == kp0,
                    self.committed() == c1,
                    self.mempool@.pending == pw,
                    self.mempool@.pending_encrypted == ew,
                    k <= all_txs.len(),
                    self.state@ == apply_checked_all(s1, tx_views(all_txs@.take(k as int))),
                    self.state.dex_state() == dex0,
                    self.state.token_state() == tok0,
                decreases all_txs.len() - k,
            {
                proof {
                    assert(tx_views(all_txs@.take(k + 1)).drop_last() =~= tx_views(all_txs@.take(k as int)));
                    assert(tx_views(all_txs@.take(k + 1)).last() == all_txs@[k as int]@);
                }
                let _ = self.state.apply_checked(&all_txs[k]);
                k = k + 1;
            }
            proof {
                assert(all_txs@.take(all_txs@.len() as int) =~= all_txs@);
            }
            let ghost before = ordered@;
            let ghost added = all_txs@;
            remove_pending_txs(&mut self.mempool.pending_transactions, &v.transactions);
            remove_pending_etxs(&mut self.mempool.pending_encrypted_transactions, &v.encrypted_transactions);
            ordered.append(&mut all_txs);
            proof {
                assert(tx_views(ordered@) =~= tx_views(before) + tx_views(added));
                lemma_apply_checked_concat(s0, tx_views(before), tx_views(added));
                lemma_ordered_yield_one(dk, m, id@, tx_views(added));
                lemma_ordered_yield_concat(dk, m, walked, tx_views(before), seq![id@], tx_views(added));
                lemma_without_concat(p0, plain_of(m, walked), m[id@].transactions, e0, sealed_of(m, walked), m[id@].encrypted_transactions);
                lemma_walk_push(m, c0, walked, id@);
            }
        } else {
            proof {
                let b = Seq::<TxView>::empty();
                assert(b.take(0) =~= m[id@].transactions);
                assert(b.skip(0) =~= b);
                assert(m[id@].encrypted_transactions.len() == 0);
                assert(vertex_yield(dk, m[id@], b));
                lemma_ordered_yield_one(dk, m, id@, b);
                lemma_ordered_yield_concat(dk, m, walked, ordered_w, seq![id@], b);
                lemma_walk_push(m, c0, walked, id@);
                assert(ordered_w + b =~= ordered_w);
                assert(plain_of(m, walked) + m[id@].transactions =~= plain_of(m, walked));
                assert(sealed_of(m, walked) + m[id@].encrypted_transactions =~= sealed_of(m, walked));
            }
        }
        ordered
    }

    /// Commits, in increasing identifier order, the uncommitted vertices of
    /// the round before `round` that the certificates of that round sign for
    /// at least two thirds of the validators (see `has_quorum`), each with
    /// its uncommitted ancestors of earlier rounds, and returns the
    /// transactions in commit order; the ledger is the ledger before with
    /// exactly these transactions applied in that order. No other vertex of
    /// that round is committed, and nothing is committed before round 2.
    pub fn order_transactions(&mut self, round: Round) -> (r: Vec<Transaction>)
        requires
            old(self).wf(),
        ensures
            final(self).wf(),
            final(self).dag == old(self).dag,
            final(self).validator_list() == old(self).validator_list(),
            final(self).round() == old(self).round(),
            final(self).mempool.keypair == old(self).mempool.keypair,
            final(self).threshold_mempool == old(self).threshold_mempool,
            round < 2 ==> r@.len() == 0 && *final(self) == *old(self),
            round >= 2 ==> commit_outcome(old(self).dag@, old(self).committed(), (round - 1) as u64,
                old(self).validator_list(), old(self).threshold_mempool@.dk, old(self).mempool@.pending,
                old(self).mempool@.pending_encrypted, final(self).committed(), final(self).mempool@.pending,
                final(self).mempool@.pending_encrypted, tx_views(r@)),
            old(self).committed().subset_of(final(self).committed()),
            forall|k: Seq<u8>| #[trigger] final(self).committed().contains(k) && !old(self).committed().contains(k)
                ==> old(self).dag@.vertices.contains_key(k),
            round >= 2 ==> forall|k: Seq<u8>|
                old(self).dag@.vertices.contains_key(k) && #[trigger] old(self).dag@.vertices[k].round == round - 1
                    && has_quorum(old(self).dag@, (round - 1) as u64, k, old(self).validator_list())
                    ==> final(self).committed().contains(k),
            forall|k: Seq<u8>| #[trigger] final(self).committed().contains(k) && !old(self).committed().contains(k)
                && old(self).dag@.vertices[k].round == round - 1
                ==> has_quorum(old(self).dag@, (round - 1) as u64, k, old(self).validator_list()),
            (forall|k: Seq<u8>|
                old(self).dag@.vertices.contains_key(k) && #[trigger] old(self).dag@.vertices[k].round == round - 1
                    && has_quorum(old(self).dag@, (round - 1) as u64, k, old(self).validator_list())
                    ==> old(self).committed().contains(k)) ==> r@.len() == 0 && *final(self) == *old(self),
            final(self).state@ == apply_checked_all(old(self).state@, tx_views(r@)),
            final(self).state.dex_state() == old(self).state.dex_state(),
            final(self).state.token_state() == old(self).state.token_state(),
    {
        if round < 2 {
            return Vec::new();
        }
        let target = round - 1;
        let ghost m = self.dag@.vertices;
        let ghost c0 = self.committed();
        let ghost d0 = self.dag@;
        let ghost vals = self.validator_list();
        let ids = self.dag.vertex_ids();
        let certs = self.dag.get_round_certificates(target);
        proof {
            assert(cert_views(certs@) =~= certs@.map_values(|c: Certificate| c@));
            assert(cert_views(certs@) == round_certificates(d0.certificates, target));
        }
        let mut to_commit: Vec<VertexId> = Vec::new();
        let mut i: usize = 0;
        while i < ids.len()
            invariant
                m == self.dag@.vertices,
                d0 == self.dag@,
                vals == self.validator_list(),
                c0 == self.committed(),
                cert_views(certs@) == round_certificates(d0.certificates, target),
                id_views(ids@).to_set() == m.dom(),
                i <= ids.len(),
                forall|j: int| 0 <= j < i && m[id_views(ids@)[j]].round == target && !c0.contains(id_views(ids@)[j])
                    && has_quorum(d0, target, id_views(ids@)[j], vals)
                    ==> #[trigger] id_views(to_commit@).contains(id_views(ids@)[j]),
                forall|x: Seq<u8>| #[trigger] id_views(to_commit@).contains(x) ==> m.contains_key(x) && m[x].round == target
                    && !c0.contains(x) && has_quorum(d0, target, x, vals),
            decreases ids.len() - i,
        {
            let id = ids[i];
            assert(id_views(ids@)[i as int] == id@);
            assert(m.dom().contains(id@));
            let ghost before = id_views(to_commit@);
            match self.dag.get_vertex(&id) {
                Some(v) => {
                    if v.round == target && !committed_set_contains(&self.committed_vertices, &id)
                        && quorum_reached(&certs, &id, &self.validators) {
                        to_commit.push(id);
                        proof {
                            let after = id_views(to_commit@);
                            assert(after =~= before.push(id@));
                            assert(after[before.len() as int] == id@);
                            assert forall|x: Seq<u8>| #[trigger] after.contains(x) implies x == id@ || before.contains(x) by {
                                let w = choose|w: int| 0 <= w < after.len() && after[w] == x;
                                if w < before.len() {
                                    assert(before[w] == x);
                                }
                            }
                            assert forall|x: Seq<u8>| before.contains(x) implies #[trigger] after.contains(x) by {
                                let w = choose|w: int| 0 <= w < before.len() && before[w] == x;
                                assert(after[w] == x);
                            }
                        }
                    }
                },
                None => {},
            }
            i = i + 1;
        }
        let sorted = sorted_distinct_ids(&to_commit);
        let ghost targets = id_views(sorted@).to_set();
        assert(targets == id_views(to_commit@).to_set());
        let ghost ss = id_views(sorted@);
        let ghost dk = self.threshold_mempool@.dk;
        let ghost p0 = self.mempool@.pending;
        let ghost e0 = self.mempool@.pending_encrypted;
        let ghost mut walked: Seq<Seq<u8>> = Seq::empty();
        proof {
            assert(ss.subrange(0, ss.len() as int) =~= ss);
            assert(c0 + walked.to_set() =~= c0);
        }
        let mut total_order: Vec<Transaction> = Vec::new();
        let ghost before_self = *self;
        let mut t: usize = 0;
        while t < sorted.len()
            invariant
                self.wf(),
                self.dag == old(self).dag,
                m == old(self).dag@.vertices,
                c0 == old(self).committed(),
                self.validator_list() == old(self).validator_list(),
                self.round() == old(self).round(),
                self.mempool.keypair == old(self).mempool.keypair,
                target == round - 1,
                c0.subset_of(self.committed()),
                d0 == old(self).dag@,
                vals == old(self).validator_list(),
                forall|k: Seq<u8>| #[trigger] self.committed().contains(k) && !c0.contains(k) ==> m.contains_key(k)
                    && (m[k].round == target ==> has_quorum(d0, target, k, vals)),
                forall|x: Seq<u8>| #[trigger] id_views(to_commit@).contains(x) ==> m.contains_key(x) && m[x].round == target
                    && !c0.contains(x) && has_quorum(d0, target, x, vals),
                targets == id_views(to_commit@).to_set(),
                targets == id_views(sorted@).to_set(),
                t <= sorted.len(),
                forall|j: int| 0 <= j < t ==> self.committed().contains(#[trigger] id_views(sorted@)[j]),
                t == 0 ==> *self == before_self && total_order@.len() == 0,
                before_self == *old(self),
                self.state@ == apply_checked_all(old(self).state@, tx_views(total_order@)),
                self.state.dex_state() == old(self).state.dex_state(),
                self.state.token_state() == old(self).state.token_state(),
                self.threshold_mempool == old(self).threshold_mempool,
                dk == old(self).threshold_mempool@.dk,
                p0 == old(self).mempool@.pending,
                e0 == old(self).mempool@.pending_encrypted,
                ss == id_views(sorted@),
                ss.len() == sorted@.len(),
                self.committed() == c0 + walked.to_set(),
                walked + walk_list(m, c0 + walked.to_set(), ss.subrange(t as int, ss.len() as int), u64::MAX)
                    == walk_list(m, c0, ss, u64::MAX),
                ordered_yield(dk, m, walked, tx_views(total_order@)),
                self.mempool@.pending == without_txs(p0, plain_of(m, walked)),
                self.mempool@.pending_encrypted == without_etxs(e0, sealed_of(m, walked)),
            decreases sorted.len() - t,
        {
            let vid = sorted[t];
            proof {
                assert(id_views(sorted@)[t as int] == vid@);
                assert(targets.contains(vid@));
                assert(id_views(to_commit@).contains(vid@));
            }
            let ghost cb = self.committed();
            let ghost before = total_order@;
            let mut part = self.commit_vertex_recursive(vid, u64::MAX);
            let ghost added = part@;
            let ghost step = commit_walk(m, cb, ss[t as int], u64::MAX);
            total_order.append(&mut part);
            proof {
                lemma_walk_list_step(m, c0, walked, ss, t as int, u64::MAX);
                lemma_walk_extend(dk, m, walked, tx_views(before), step, tx_views(added), p0, e0);
                walked = walked + step;
                assert(tx_views(total_order@) =~= tx_views(before) + tx_views(added));
                lemma_apply_checked_concat(old(self).state@, tx_views(before), tx_views(added));
                assert forall|j: int| 0 <= j < t + 1 implies self.committed().contains(#[trigger] id_views(sorted@)[j]) by {
                    if j < t {
                        assert(cb.contains(id_views(sorted@)[j]));
                    }
                }
            }
            t = t + 1;
        }
        proof {
            assert forall|k: Seq<u8>| m.contains_key(k) && #[trigger] m[k].round == round - 1
                && has_quorum(d0, target, k, vals) implies self.committed().contains(k) by {
                if !c0.contains(k) {
                    assert(m.dom().contains(k));
                    let j = choose|j: int| 0 <= j < id_views(ids@).len() && id_views(ids@)[j] == k;
                    assert(id_views(to_commit@).contains(k));
                    assert(targets.contains(k));
                    let w = choose|w: int| 0 <= w < id_views(sorted@).len() && id_views(sorted@)[w] == k;
                    assert(self.committed().contains(id_views(sorted@)[w]));
                }
            }
            assert(ss.subrange(ss.len() as int, ss.len() as int) =~= Seq::<Seq<u8>>::empty());
            assert(walked + Seq::<Seq<u8>>::empty() =~= walked);
            let q = quorum_targets(d0, c0, target, vals);
            assert forall|x: Seq<u8>| #[trigger] q.contains(x) <==> targets.contains(x) by {
                if q.contains(x) {
                    assert(m.dom().contains(x));
                    let j = choose|j: int| 0 <= j < id_views(ids@).len() && id_views(ids@)[j] == x;
                    assert(id_views(to_commit@).contains(x));
                }
            }
            assert(q =~= targets);
            lemma_ascending_ids(ss);
            if forall|k: Seq<u8>| m.contains_key(k) && #[trigger] m[k].round == round - 1
                && has_quorum(d0, target, k, vals) ==> c0.contains(k) {
                if sorted@.len() > 0 {
                    assert(targets.contains(id_views(sorted@)[0]));
                    assert(id_views(to_commit@).contains(id_views(sorted@)[0]));
                }
            }
        }
        total_order
    }

    /// Counters for the dashboard.
    pub fn summary(&self) -> (s: ConsensusSummary)
        requires
            self.state.wf(),
            self.state@.tx_count <= usize::MAX,
        ensures
            s.current_round == self.round(),
            s.validator_count == self.validator_list().len(),
            s.pending_txs == self.mempool@.pending.dom().len(),
            s.committed_vertices == self.committed().len(),
            s.total_vertices == self.dag@.vertices.dom().len(),
            s.tx_count == self.state@.tx_count,
    {
        let st: StateStats = self.state.stats();
        ConsensusSummary {
            current_round: self.current_round,
            validator_count: self.validators.len(),
            pending_txs: self.mempool.pending_count(),
            committed_vertices: committed_set_len(&self.committed_vertices),
            total_vertices: self.dag.vertex_count(),
            account_count: st.account_count,
            tx_count: st.tx_count,
            fee_pool_balance: st.fee_pool_balance,
        }
    }
}

} // verus!
