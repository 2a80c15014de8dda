//! What committing vertices yields: the order in which a vertex and its
//! uncommitted ancestors are committed, the transactions that come out of
//! them in that order, and what leaves the mempool.

use vstd::prelude::*;
use crate::chain::{EtxView, TxView};
use crate::consensus::{
    has_quorum, lex_lt, lemma_lex_irreflexive, lemma_lex_transitive, strictly_sorted, without_etxs, without_txs,
    DagView, VertexView,
};
use crate::outside::mlkem768_shared_secret;
use crate::threshold::opened_payload;

verus! {

/// The identifiers of `s` in increasing byte order.
pub open spec fn ascending_ids(s: Set<Seq<u8>>) -> Seq<Seq<u8>> {
    choose|t: Seq<Seq<u8>>| strictly_sorted(t) && t.to_set() == s
}

/// The vertices that committing `id` commits when `c` is already committed,
/// in commit order: none when `id` is committed, unknown, or of round
/// `bound` or later; otherwise its parents' walks in increasing identifier
/// order (each following only rounds before `id`'s), then `id`.
pub open spec fn commit_walk(m: Map<Seq<u8>, VertexView>, c: Set<Seq<u8>>, id: Seq<u8>, bound: u64) -> Seq<Seq<u8>>
    decreases bound, 0nat,
{
    if c.contains(id) || !m.contains_key(id) || m[id].round >= bound {
        Seq::empty()
    } else {
        walk_list(m, c, ascending_ids(m[id].parents.to_set()), m[id].round).push(id)
    }
}

/// The walks of `ids` one after another, each starting from what the ones
/// before it committed.
pub open spec fn walk_list(m: Map<Seq<u8>, VertexView>, c: Set<Seq<u8>>, ids: Seq<Seq<u8>>, bound: u64) -> Seq<Seq<u8>>
    decreases bound, ids.len() + 1,
{
    if ids.len() == 0 {
        Seq::empty()
    } else {
        let first = commit_walk(m, c, ids[0], bound);
        first + walk_list(m, c + first.to_set(), ids.drop_first(), bound)
    }
}

/// Whether `tx` is what the encrypted transaction `e` stands for under the
/// decapsulation key `dk` (its time stamp aside): the payload opens, and the
/// sender, fee, nonce, chain, signature come from `e`, the receiver, amount
/// and data from the payload.
pub open spec fn decrypts_to(dk: Option<Seq<u8>>, e: EtxView, tx: TxView) -> bool {
    match dk {
        None => false,
        Some(k) => match opened_payload(e.encrypted_payload, mlkem768_shared_secret(k, e.kem_ciphertext), e.payload_commitment) {
            Ok(p) => {
                &&& tx.sender == e.sender
                &&& tx.receiver == p.receiver
                &&& tx.amount == p.amount
                &&& tx.fee == e.fee
                &&& tx.nonce == e.nonce
                &&& tx.chain_id == e.chain_id
                &&& tx.read_set == seq![e.sender, p.receiver]
                &&& tx.write_set == seq![e.sender, p.receiver]
                &&& tx.data == p.data
                &&& tx.signature == e.signature
            },
            Err(_) => false,
        },
    }
}

/// Whether `d` is what some of `etxs`, in their order, decrypt to.
pub open spec fn decrypted_from(dk: Option<Seq<u8>>, etxs: Seq<EtxView>, d: Seq<TxView>) -> bool
    decreases etxs.len(),
{
    if etxs.len() == 0 {
        d.len() == 0
    } else {
        ||| decrypted_from(dk, etxs.drop_last(), d)
        ||| (d.len() > 0 && decrypted_from(dk, etxs.drop_last(), d.drop_last()) && decrypts_to(dk, etxs.last(), d.last()))
    }
}

/// Whether `b` is what committing `v` yields: its transactions in their
/// order, then what some of its encrypted ones decrypt to, in their order.
pub open spec fn vertex_yield(dk: Option<Seq<u8>>, v: VertexView, b: Seq<TxView>) -> bool {
    &&& v.transactions.len() <= b.len()
    &&& b.take(v.transactions.len() as int) == v.transactions
    &&& decrypted_from(dk, v.encrypted_transactions, b.skip(v.transactions.len() as int))
}

/// Whether `r` is what committing the vertices `ids` of `m` in that order
/// yields: each vertex's yield, one after the other.
pub open spec fn ordered_yield(dk: Option<Seq<u8>>, m: Map<Seq<u8>, VertexView>, ids: Seq<Seq<u8>>, r: Seq<TxView>) -> bool
    decreases ids.len(),
{
    if ids.len() == 0 {
        r.len() == 0
    } else {
        exists|k: int|
            #![trigger r.take(k)]
            0 <= k <= r.len() && ordered_yield(dk, m, ids.drop_last(), r.take(k)) && vertex_yield(dk, m[ids.last()], r.skip(k))
    }
}

/// The transactions of the vertices `ids`, one vertex after the other.
pub open spec fn plain_of(m: Map<Seq<u8>, VertexView>, ids: Seq<Seq<u8>>) -> Seq<TxView>
    decreases ids.len(),
{
    if ids.len() == 0 {
        Seq::empty()
    } else {
        plain_of(m, ids.drop_last()) + m[ids.last()].transactions
    }
}

/// The encrypted transactions of the vertices `ids`, one vertex after the other.
pub open spec fn sealed_of(m: Map<Seq<u8>, VertexView>, ids: Seq<Seq<u8>>) -> Seq<EtxView>
    decreases ids.len(),
{
    if ids.len() == 0 {
        Seq::empty()
    } else {
        sealed_of(m, ids.drop_last()) + m[ids.last()].encrypted_transactions
    }
}

/// The uncommitted vertices of `round` certified by two thirds of `vals`.
pub open spec fn quorum_targets(d: DagView, c: Set<Seq<u8>>, round: u64, vals: Seq<Seq<u8>>) -> Set<Seq<u8>> {
    Set::new(|k: Seq<u8>| d.vertices.contains_key(k) && d.vertices[k].round == round && !c.contains(k) && has_quorum(d, round, k, vals))
}

/// What committing the quorum vertices of `round` does, from committed set
/// `c0` and pending pools `p0`, `e0` (decapsulation key `dk`): the walks of
/// those vertices in increasing identifier order are committed (`c1`), the
/// transactions returned (`r`) are their yields in that order, and their
/// transactions leave the pools (`p1`, `e1`).
pub open spec fn commit_outcome(
    d: DagView,
    c0: Set<Seq<u8>>,
    round: u64,
    vals: Seq<Seq<u8>>,
    dk: Option<Seq<u8>>,
    p0: Map<Seq<u8>, TxView>,
    e0: Map<Seq<u8>, EtxView>,
    c1: Set<Seq<u8>>,
    p1: Map<Seq<u8>, TxView>,
    e1: Map<Seq<u8>, EtxView>,
    r: Seq<TxView>,
) -> bool {
    let walked = walk_list(d.vertices, c0, ascending_ids(quorum_targets(d, c0, round, vals)), u64::MAX);
    &&& c1 == c0 + walked.to_set()
    &&& ordered_yield(dk, d.vertices, walked, r)
    &&& p1 == without_txs(p0, plain_of(d.vertices, walked))
    &&& e1 == without_etxs(e0, sealed_of(d.vertices, walked))
}

/// Two increasing sequences of the same identifiers are equal.
pub proof fn lemma_ascending_ids_unique(s: Seq<Seq<u8>>, t: Seq<Seq<u8>>)
    requires
        strictly_sorted(s),
        strictly_sorted(t),
        s.to_set() == t.to_set(),
    ensures
        s == t,
    decreases s.len(),
{
    if s.len() == 0 {
        if t.len() > 0 {
            assert(t.to_set().contains(t[0]));
        }
        assert(s =~= t);
    } else {
        assert(s.to_set().contains(s[0]));
        assert(t.len() > 0);
        assert(t.to_set().contains(t[0]));
        let i = choose|i: int| 0 <= i < s.len() && s[i] == t[0];
        let j = choose|j: int| 0 <= j < t.len() && t[j] == s[0];
        if s[0] != t[0] {
            assert(i > 0 && lex_lt(s[0], s[i]));
            assert(j > 0 && lex_lt(t[0], t[j]));
            lemma_lex_transitive(s[0], t[0], s[0]);
            lemma_lex_irreflexive(s[0]);
        }
        let s1 = s.drop_first();
        let t1 = t.drop_first();
        assert forall|x: Seq<u8>| s1.to_set().contains(x) <==> t1.to_set().contains(x) by {
            if s1.to_set().contains(x) {
                let a = choose|a: int| 0 <= a < s1.len() && s1[a] == x;
                assert(s.to_set().contains(x));
                assert(lex_lt(s[0], s[a + 1]));
                lemma_lex_irreflexive(x);
                let b = choose|b: int| 0 <= b < t.len() && t[b] == x;
                if b == 0 {
                    assert(x == s[0]);
                }
                assert(t1[b - 1] == x);
            }
            if t1.to_set().contains(x) {
                let a = choose|a: int| 0 <= a < t1.len() && t1[a] == x;
                assert(t.to_set().contains(x));
                assert(lex_lt(t[0], t[a + 1]));
                lemma_lex_irreflexive(x);
                let b = choose|b: int| 0 <= b < s.len() && s[b] == x;
                if b == 0 {
                    assert(x == t[0]);
                }
                assert(s1[b - 1] == x);
            }
        }
        assert(s1.to_set() =~= t1.to_set());
        lemma_ascending_ids_unique(s1, t1);
        assert forall|k: int| 0 <= k < s.len() implies s[k] == t[k] by {
            if k > 0 {
                assert(s[k] == s1[k - 1] && t[k] == t1[k - 1]);
            }
        }
        assert(s =~= t);
    }
}

/// An increasing sequence is the increasing sequence of its identifiers.
pub proof fn lemma_ascending_ids(s: Seq<Seq<u8>>)
    requires
        strictly_sorted(s),
    ensures
        ascending_ids(s.to_set()) == s,
{
    let t = ascending_ids(s.to_set());
    assert(strictly_sorted(s) && s.to_set() == s.to_set());
    lemma_ascending_ids_unique(t, s);
}

/// Yields concatenate.
pub proof fn lemma_ordered_yield_concat(
    dk: Option<Seq<u8>>,
    m: Map<Seq<u8>, VertexView>,
    a: Seq<Seq<u8>>,
    ra: Seq<TxView>,
    b: Seq<Seq<u8>>,
    rb: Seq<TxView>,
)
    requires
        ordered_yield(dk, m, a, ra),
        ordered_yield(dk, m, b, rb),
    ensures
        ordered_yield(dk, m, a + b, ra + rb),
    decreases b.len(),
{
    if b.len() == 0 {
        assert(a + b =~= a);
        assert(ra + rb =~= ra);
    } else {
        let k = choose|k: int|
            #![trigger rb.take(k)]
            0 <= k <= rb.len() && ordered_yield(dk, m, b.drop_last(), rb.take(k)) && vertex_yield(dk, m[b.last()], rb.skip(k));
        lemma_ordered_yield_concat(dk, m, a, ra, b.drop_last(), rb.take(k));
        let ab = a + b;
        let r = ra + rb;
        let kk = ra.len() + k;
        assert(ab.drop_last() =~= a + b.drop_last());
        assert(ab.last() == b.last());
        assert(r.take(kk) =~= ra + rb.take(k));
        assert(r.skip(kk) =~= rb.skip(k));
        assert(0 <= kk <= r.len() && ordered_yield(dk, m, ab.drop_last(), r.take(kk)) && vertex_yield(dk, m[ab.last()], r.skip(kk)));
    }
}

/// One vertex's yield is the yield of the walk of that vertex alone.
pub proof fn lemma_ordered_yield_one(dk: Option<Seq<u8>>, m: Map<Seq<u8>, VertexView>, id: Seq<u8>, b: Seq<TxView>)
    requires
        vertex_yield(dk, m[id], b),
    ensures
        ordered_yield(dk, m, seq![id], b),
{
    let ids = seq![id];
    assert(ids.drop_last() =~= Seq::<Seq<u8>>::empty());
    assert(ids.last() == id);
    assert(b.take(0).len() == 0);
    assert(b.skip(0) =~= b);
    assert(0 <= 0 <= b.len() && ordered_yield(dk, m, ids.drop_last(), b.take(0)) && vertex_yield(dk, m[ids.last()], b.skip(0)));
}

/// Transactions of a concatenation of walks.
pub proof fn lemma_plain_of_concat(m: Map<Seq<u8>, VertexView>, a: Seq<Seq<u8>>, b: Seq<Seq<u8>>)
    ensures
        plain_of(m, a + b) == plain_of(m, a) + plain_of(m, b),
        sealed_of(m, a + b) == sealed_of(m, a) + sealed_of(m, b),
    decreases b.len(),
{
    if b.len() == 0 {
        assert(a + b =~= a);
        assert(plain_of(m, a) + plain_of(m, b) =~= plain_of(m, a));
        assert(sealed_of(m, a) + sealed_of(m, b) =~= sealed_of(m, a));
    } else {
        lemma_plain_of_concat(m, a, b.drop_last());
        assert((a + b).drop_last() =~= a + b.drop_last());
        assert((a + b).last() == b.last());
        assert(plain_of(m, a) + plain_of(m, b) =~= plain_of(m, a) + plain_of(m, b.drop_last()) + m[b.last()].transactions);
        assert(sealed_of(m, a) + sealed_of(m, b)
            =~= sealed_of(m, a) + sealed_of(m, b.drop_last()) + m[b.last()].encrypted_transactions);
    }
}

/// Removing `a + b` is removing `a`, then `b`.
pub proof fn lemma_without_concat(p: Map<Seq<u8>, TxView>, a: Seq<TxView>, b: Seq<TxView>, e: Map<Seq<u8>, EtxView>, ea: Seq<EtxView>, eb: Seq<EtxView>)
    ensures
        without_txs(p, a + b) == without_txs(without_txs(p, a), b),
        without_etxs(e, ea + eb) == without_etxs(without_etxs(e, ea), eb),
    decreases b.len() + eb.len(),
{
    if b.len() > 0 {
        lemma_without_concat(p, a, b.drop_last(), e, ea, eb);
        assert((a + b).drop_last() =~= a + b.drop_last());
        assert((a + b).last() == b.last());
    } else {
        assert(a + b =~= a);
    }
    if eb.len() > 0 {
        lemma_without_concat(p, a, Seq::empty(), e, ea, eb.drop_last());
        assert((ea + eb).drop_last() =~= ea + eb.drop_last());
        assert((ea + eb).last() == eb.last());
    } else {
        assert(ea + eb =~= ea);
    }
}

/// Walking the identifier at position `i` of `ids` after those before it.
pub proof fn lemma_walk_list_step(m: Map<Seq<u8>, VertexView>, c0: Set<Seq<u8>>, walked: Seq<Seq<u8>>, ids: Seq<Seq<u8>>, i: int, b: u64)
    requires
        0 <= i < ids.len(),
    ensures
        ({
            let cb = c0 + walked.to_set();
            let step = commit_walk(m, cb, ids[i], b);
            &&& walked + walk_list(m, cb, ids.subrange(i, ids.len() as int), b)
                == (walked + step) + walk_list(m, c0 + (walked + step).to_set(), ids.subrange(i + 1, ids.len() as int), b)
            &&& cb + step.to_set() == c0 + (walked + step).to_set()
        }),
{
    let cb = c0 + walked.to_set();
    let step = commit_walk(m, cb, ids[i], b);
    let rest = ids.subrange(i, ids.len() as int);
    assert(rest[0] == ids[i]);
    assert(rest.drop_first() =~= ids.subrange(i + 1, ids.len() as int));
    assert(cb + step.to_set() =~= c0 + (walked + step).to_set()) by {
        assert forall|x: Seq<u8>| (walked + step).to_set().contains(x) <==> walked.to_set().contains(x) || step.to_set().contains(x) by {
            if (walked + step).to_set().contains(x) {
                let k = choose|k: int| 0 <= k < (walked + step).len() && (walked + step)[k] == x;
                if k < walked.len() {
                    assert(walked[k] == x);
                } else {
                    assert(step[k - walked.len()] == x);
                }
            }
            if walked.to_set().contains(x) {
                let k = choose|k: int| 0 <= k < walked.len() && walked[k] == x;
                assert((walked + step)[k] == x);
            }
            if step.to_set().contains(x) {
                let k = choose|k: int| 0 <= k < step.len() && step[k] == x;
                assert((walked + step)[walked.len() + k] == x);
            }
        }
    }
    let tail = walk_list(m, cb + step.to_set(), rest.drop_first(), b);
    assert(walk_list(m, cb, rest, b) == step + tail);
    assert(walked + (step + tail) =~= (walked + step) + tail);
}

/// Adding a walk's yield and removals to those of the walks before it.
pub proof fn lemma_walk_extend(
    dk: Option<Seq<u8>>,
    m: Map<Seq<u8>, VertexView>,
    walked: Seq<Seq<u8>>,
    rw: Seq<TxView>,
    step: Seq<Seq<u8>>,
    rs: Seq<TxView>,
    p0: Map<Seq<u8>, TxView>,
    e0: Map<Seq<u8>, EtxView>,
)
    requires
        ordered_yield(dk, m, walked, rw),
        ordered_yield(dk, m, step, rs),
    ensures
        ordered_yield(dk, m, walked + step, rw + rs),
        without_txs(without_txs(p0, plain_of(m, walked)), plain_of(m, step)) == without_txs(p0, plain_of(m, walked + step)),
        without_etxs(without_etxs(e0, sealed_of(m, walked)), sealed_of(m, step)) == without_etxs(e0, sealed_of(m, walked + step)),
{
    lemma_ordered_yield_concat(dk, m, walked, rw, step, rs);
    lemma_plain_of_concat(m, walked, step);
    lemma_without_concat(p0, plain_of(m, walked), plain_of(m, step), e0, sealed_of(m, walked), sealed_of(m, step));
}

/// The walk of one vertex appended.
pub proof fn lemma_walk_push(m: Map<Seq<u8>, VertexView>, c0: Set<Seq<u8>>, walked: Seq<Seq<u8>>, id: Seq<u8>)
    ensures
        (c0 + walked.to_set()).insert(id) == c0 + walked.push(id).to_set(),
        plain_of(m, walked.push(id)) == plain_of(m, walked) + m[id].transactions,
        sealed_of(m, walked.push(id)) == sealed_of(m, walked) + m[id].encrypted_transactions,
        walked + seq![id] == walked.push(id),
{
    assert(walked.push(id).drop_last() =~= walked);
    assert(walked + seq![id] =~= walked.push(id));
    assert forall|x: Seq<u8>| walked.push(id).to_set().contains(x) <==> walked.to_set().contains(x) || x == id by {
        if walked.push(id).to_set().contains(x) {
            let k = choose|k: int| 0 <= k < walked.push(id).len() && walked.push(id)[k] == x;
            if k < walked.len() {
                assert(walked[k] == x);
            }
        }
        if walked.to_set().contains(x) {
            let k = choose|k: int| 0 <= k < walked.len() && walked[k] == x;
            assert(walked.push(id)[k] == x);
        }
        if x == id {
            assert(walked.push(id)[walked.len() as int] == x);
        }
    }
    assert forall|x: Seq<u8>| #[trigger] (c0 + walked.to_set()).insert(id).contains(x) <==> (c0 + walked.push(id).to_set()).contains(x) by {
        assert((c0 + walked.to_set()).contains(x) == (c0.contains(x) || walked.to_set().contains(x)));
        assert((c0 + walked.push(id).to_set()).contains(x) == (c0.contains(x) || walked.push(id).to_set().contains(x)));
    }
    assert((c0 + walked.to_set()).insert(id) =~= c0 + walked.push(id).to_set());
}

} // verus!
