//! Transactions, the chain's constants, and the grouping of transactions
//! into batches that touch disjoint accounts.

use vstd::prelude::*;
use crate::outside::unix_now_secs;

verus! {

/// Chain identifier of the network; transactions carrying another id are refused.
pub const CHAIN_ID: u64 = 2100;

/// Protocol account that collects transaction fees.
pub const FEE_POOL_ADDRESS: &'static str = "RedFlag_Protocol_FeePool";

/// Genesis account, the source of the initial supply.
pub const GENESIS_ADDRESS: &'static str = "RedFlag_Genesis_Alpha";

/// Balance of the genesis account when the chain starts.
pub const GENESIS_BALANCE: u64 = 1_000_000_000;

/// Smallest fee an ordinary transaction may pay.
pub const MIN_FEE: u64 = 1;

/// Protocol account that receives stakes.
pub const STAKE_ADDRESS: &'static str = "RedFlag_Protocol_Stake_v1";

/// Smallest transfer to the stake account that registers a validator.
pub const MIN_STAKE: u64 = 10_000;

/// A transfer of native RF between two accounts.
pub struct Transaction {
    pub sender: String,
    pub receiver: String,
    pub amount: u64,
    /// Anti-spam fee, at least `MIN_FEE` for ordinary transactions.
    pub fee: u64,
    /// Must equal the sender's account nonce.
    pub nonce: u64,
    /// Must equal `CHAIN_ID`.
    pub chain_id: u64,
    /// Accounts the transaction reads.
    pub read_set: Vec<String>,
    /// Accounts the transaction writes; two transactions conflict when these meet.
    pub write_set: Vec<String>,
    /// Contract payload; empty for a plain transfer.
    pub data: Vec<u8>,
    pub signature: Vec<u8>,
    pub timestamp: u64,
}

/// A transaction as a mathematical value.
pub struct TxView {
    pub sender: Seq<char>,
    pub receiver: Seq<char>,
    pub amount: u64,
    pub fee: u64,
    pub nonce: u64,
    pub chain_id: u64,
    pub read_set: Seq<Seq<char>>,
    pub write_set: Seq<Seq<char>>,
    pub data: Seq<u8>,
    pub signature: Seq<u8>,
    pub timestamp: u64,
}

/// Views of a list of account names.
pub open spec fn names(v: Seq<String>) -> Seq<Seq<char>> {
    v.map_values(|s: String| s@)
}

impl View for Transaction {
    type V = TxView;

    open spec fn view(&self) -> TxView {
        TxView {
            sender: self.sender@,
            receiver: self.receiver@,
            amount: self.amount,
            fee: self.fee,
            nonce: self.nonce,
            chain_id: self.chain_id,
            read_set: names(self.read_set@),
            write_set: names(self.write_set@),
            data: self.data@,
            signature: self.signature@,
            timestamp: self.timestamp,
        }
    }
}

/// Views of a sequence of transactions.
pub open spec fn tx_views(s: Seq<Transaction>) -> Seq<TxView> {
    s.map_values(|t: Transaction| t@)
}

/// Views of a grouping of transactions.
pub open spec fn group_views(s: Seq<Vec<Transaction>>) -> Seq<Seq<TxView>> {
    s.map_values(|g: Vec<Transaction>| tx_views(g@))
}

/// Two transactions conflict when some account is written by both.
pub open spec fn write_sets_meet(a: TxView, b: TxView) -> bool {
    exists|i: int, j: int|
        0 <= i < a.write_set.len() && 0 <= j < b.write_set.len()
            && #[trigger] a.write_set[i] == #[trigger] b.write_set[j]
}

proof fn lemma_string_vec_clone(a: Vec<String>, b: Vec<String>)
    requires
        b.len() == a.len(),
        forall|i| #![all_triggers] 0 <= i < a.len() ==> cloned::<String>(a[i], b[i]),
        a@ =~= b@ ==> a@ == b@,
    ensures
        a@ == b@,
{
    assert forall|i: int| 0 <= i < a.len() implies a@[i] == b@[i] by {
        assert(cloned::<String>(a[i], b[i]));
    }
    assert(a@ =~= b@);
}

proof fn lemma_byte_vec_clone(a: Vec<u8>, b: Vec<u8>)
    requires
        b.len() == a.len(),
        forall|i| #![all_triggers] 0 <= i < a.len() ==> cloned::<u8>(a[i], b[i]),
        a@ =~= b@ ==> a@ == b@,
    ensures
        a@ == b@,
{
    assert forall|i: int| 0 <= i < a.len() implies a@[i] == b@[i] by {
        assert(cloned::<u8>(a[i], b[i]));
    }
    assert(a@ =~= b@);
}

impl Clone for Transaction {
    fn clone(&self) -> (r: Self)
        ensures
            r@ == self@,
    {
        let read_set = self.read_set.clone();
        let write_set = self.write_set.clone();
        let data = self.data.clone();
        let signature = self.signature.clone();
        let r = Transaction {
            sender: self.sender.clone(),
            receiver: self.receiver.clone(),
            amount: self.amount,
            fee: self.fee,
            nonce: self.nonce,
            chain_id: self.chain_id,
            read_set,
            write_set,
            data,
            signature,
            timestamp: self.timestamp,
        };
        proof {
            lemma_string_vec_clone(self.read_set, read_set);
            lemma_string_vec_clone(self.write_set, write_set);
            lemma_byte_vec_clone(self.data, data);
            lemma_byte_vec_clone(self.signature, signature);
        }
        r
    }
}

/// First-fit grouping: each transaction joins the first group none of whose
/// members conflicts with it, or opens a new group after the others.
pub open spec fn first_fit(txs: Seq<TxView>) -> Seq<Seq<TxView>>
    decreases txs.len(),
{
    if txs.len() == 0 {
        Seq::empty()
    } else {
        place(first_fit(txs.drop_last()), txs.last())
    }
}

/// Index of the first group in which `tx` conflicts with no member
/// (`groups.len()` when there is none).
pub open spec fn slot_for(groups: Seq<Seq<TxView>>, tx: TxView) -> int
    decreases groups.len(),
{
    if groups.len() == 0 {
        0
    } else if free_of_conflict(groups[0], tx) {
        0
    } else {
        1 + slot_for(groups.drop_first(), tx)
    }
}

/// No member of `group` conflicts with `tx`.
pub open spec fn free_of_conflict(group: Seq<TxView>, tx: TxView) -> bool {
    forall|k: int| 0 <= k < group.len() ==> !write_sets_meet(#[trigger] group[k], tx)
}

/// `groups` after `tx` has been placed by first fit.
pub open spec fn place(groups: Seq<Seq<TxView>>, tx: TxView) -> Seq<Seq<TxView>> {
    let s = slot_for(groups, tx);
    if s < groups.len() {
        groups.update(s, groups[s].push(tx))
    } else {
        groups.push(seq![tx])
    }
}

/// Total number of transactions in a grouping.
pub open spec fn total_len(groups: Seq<Seq<TxView>>) -> nat
    decreases groups.len(),
{
    if groups.len() == 0 {
        0
    } else {
        total_len(groups.drop_last()) + groups.last().len()
    }
}

/// No two members of a group conflict.
pub open spec fn conflict_free(groups: Seq<Seq<TxView>>) -> bool {
    forall|g: int, a: int, b: int|
        0 <= g < groups.len() && 0 <= a < groups[g].len() && 0 <= b < groups[g].len() && a < b
            ==> !write_sets_meet(#[trigger] groups[g][a], #[trigger] groups[g][b])
}

impl Transaction {
    /// A transfer from `sender` to `receiver`, stamped with the current time;
    /// the fee is raised to `MIN_FEE` when lower.
    pub fn new_transfer(sender: String, receiver: String, amount: u64, fee: u64, nonce: u64) -> (t: Self)
        ensures
            t.sender@ == sender@,
            t.receiver@ == receiver@,
            t.amount == amount,
            t.fee == if fee < MIN_FEE { MIN_FEE } else { fee },
            t.nonce == nonce,
            t.chain_id == CHAIN_ID,
            names(t.read_set@) == seq![sender@, receiver@],
            names(t.write_set@) == seq![sender@, receiver@],
            t.data@.len() == 0,
            t.signature@.len() == 0,
    {
        let now = unix_now_secs();
        let t = Transaction {
            read_set: vec![sender.clone(), receiver.clone()],
            write_set: vec![sender.clone(), receiver.clone()],
            sender,
            receiver,
            amount,
            fee: if fee < MIN_FEE { MIN_FEE } else { fee },
            nonce,
            chain_id: CHAIN_ID,
            data: vec![],
            signature: vec![],
            timestamp: now,
        };
        assert(names(t.read_set@) =~= seq![t.sender@, t.receiver@]);
        assert(names(t.write_set@) =~= seq![t.sender@, t.receiver@]);
        t
    }

    /// The genesis credit of `amount` to `receiver`: no fee, nonce 0, a one-byte marker signature.
    pub fn genesis(receiver: String, amount: u64) -> (t: Self)
        ensures
            t.sender@ == GENESIS_ADDRESS@,
            t.receiver@ == receiver@,
            t.amount == amount,
            t.fee == 0,
            t.nonce == 0,
            t.chain_id == CHAIN_ID,
            names(t.read_set@) == seq![GENESIS_ADDRESS@, receiver@],
            names(t.write_set@) == seq![GENESIS_ADDRESS@, receiver@],
            t.data@.len() == 0,
            t.signature@ == seq![1u8],
            t.timestamp == 0,
    {
        let t = Transaction {
            sender: GENESIS_ADDRESS.to_owned(),
            receiver: receiver.clone(),
            amount,
            fee: 0,
            nonce: 0,
            chain_id: CHAIN_ID,
            read_set: vec![GENESIS_ADDRESS.to_owned(), receiver.clone()],
            write_set: vec![GENESIS_ADDRESS.to_owned(), receiver],
            data: vec![],
            signature: vec![1],
            timestamp: 0,
        };
        assert(names(t.read_set@) =~= seq![GENESIS_ADDRESS@, t.receiver@]);
        assert(names(t.write_set@) =~= seq![GENESIS_ADDRESS@, t.receiver@]);
        t
    }

    /// Whether some account is written by both transactions.
    pub fn conflicts_with(&self, other: &Transaction) -> (b: bool)
        ensures
            b == write_sets_meet(self@, other@),
    {
        let n = self.write_set.len();
        let m = other.write_set.len();
        let mut i: usize = 0;
        while i < n
            invariant
                n == self.write_set@.len(),
                m == other.write_set@.len(),
                i <= n,
                forall|a: int, c: int|
                    0 <= a < i && 0 <= c < m ==> #[trigger] self.write_set@[a]@ != #[trigger] other.write_set@[c]@,
            decreases n - i,
        {
            let mut j: usize = 0;
            while j < m
                invariant
                    n == self.write_set@.len(),
                    m == other.write_set@.len(),
                    i < n,
                    j <= m,
                    forall|c: int| 0 <= c < j ==> self.write_set@[i as int]@ != #[trigger] other.write_set@[c]@,
                decreases m - j,
            {
                if self.write_set[i] == other.write_set[j] {
                    assert(write_sets_meet(self@, other@)) by {
                        assert(self@.write_set[i as int] == other@.write_set[j as int]);
                    }
                    return true;
                }
                j = j + 1;
            }
            i = i + 1;
        }
        false
    }

    /// Groups the transactions by first fit so that no two members of a group conflict.
    pub fn parallel_groups(txs: Vec<Transaction>) -> (groups: Vec<Vec<Transaction>>)
        ensures
            group_views(groups@) == first_fit(tx_views(txs@)),
    {
        let ghost all = tx_views(txs@);
        let mut rest = txs;
        let mut groups: Vec<Vec<Transaction>> = Vec::new();
        let ghost mut done: int = 0;
        while rest.len() > 0
            invariant
                0 <= done <= all.len(),
                tx_views(rest@) == all.subrange(done, all.len() as int),
                group_views(groups@) == first_fit(all.subrange(0, done)),
            decreases rest.len(),
        {
            let ghost rest_before = rest@;
            assert(tx_views(rest_before)[0] == rest_before[0]@);
            assert(tx_views(rest_before).len() == rest_before.len());
            assert(done < all.len());
            assert(all[done] == rest_before[0]@);
            let tx = rest.remove(0);
            let ghost before = group_views(groups@);
            let gl = groups.len();
            assert(before.subrange(0, gl as int) =~= before);
            let mut slot: usize = 0;
            let mut found = false;
            while slot < gl && !found
                invariant
                    gl == groups@.len(),
                    before == group_views(groups@),
                    slot <= gl,
                    found ==> slot < gl && free_of_conflict(before[slot as int], tx@),
                    !found ==> slot_for(before, tx@) == slot + slot_for(before.subrange(slot as int, gl as int), tx@),
                    found ==> slot_for(before, tx@) == slot,
                decreases gl - slot, if found { 0int } else { 1int },
            {
                let g = &groups[slot];
                let glen = g.len();
                let mut k: usize = 0;
                let mut clash = false;
                while k < glen && !clash
                    invariant
                        glen == g@.len(),
                        k <= glen,
                        clash ==> exists|q: int| 0 <= q < glen && write_sets_meet(#[trigger] g@[q]@, tx@),
                        !clash ==> forall|q: int| 0 <= q < k ==> !write_sets_meet(#[trigger] g@[q]@, tx@),
                    decreases glen - k, if clash { 0int } else { 1int },
                {
                    if g[k].conflicts_with(&tx) {
                        clash = true;
                    } else {
                        k = k + 1;
                    }
                }
                proof {
                    let sub = before.subrange(slot as int, gl as int);
                    assert(sub[0] == before[slot as int]);
                    assert(sub.drop_first() =~= before.subrange(slot + 1, gl as int));
                    assert(before[slot as int] == tx_views(g@));
                    if clash {
                        let q = choose|q: int| 0 <= q < glen && write_sets_meet(#[trigger] g@[q]@, tx@);
                        assert(before[slot as int][q] == g@[q]@);
                        assert(!free_of_conflict(before[slot as int], tx@));
                    } else {
                        assert forall|q: int| 0 <= q < before[slot as int].len() implies
                            !write_sets_meet(#[trigger] before[slot as int][q], tx@) by {
                            assert(before[slot as int][q] == g@[q]@);
                        }
                    }
                }
                if clash {
                    slot = slot + 1;
                } else {
                    found = true;
                }
            }
            proof {
                if !found {
                    assert(before.subrange(slot as int, gl as int) =~= Seq::<Seq<TxView>>::empty());
                }
                assert(all.subrange(0, done + 1).drop_last() =~= all.subrange(0, done));
                assert(all.subrange(0, done + 1).last() == tx@);
            }
            if found {
                let ghost gs0 = groups@;
                let mut g = groups.remove(slot);
                g.push(tx);
                assert(tx_views(g@) =~= before[slot as int].push(tx@));
                groups.insert(slot, g);
                proof {
                    assert(groups@ =~= gs0.update(slot as int, g));
                    assert(group_views(groups@) =~= before.update(
                        slot as int,
                        before[slot as int].push(tx@),
                    ));
                }
            } else {
                let ghost tv = tx@;
                let single = vec![tx];
                assert(tx_views(single@) =~= seq![tv]);
                groups.push(single);
                proof {
                    assert(group_views(groups@) =~= before.push(seq![tv]));
                }
            }
            proof {
                assert(rest@ == rest_before.remove(0));
                assert(tx_views(rest@) =~= tx_views(rest_before).drop_first());
                done = done + 1;
                assert(tx_views(rest@) =~= all.subrange(done, all.len() as int));
            }
        }
        proof {
            assert(all.subrange(0, done) =~= all);
        }
        groups
    }
}

/// Conflicting transactions never share a group, and the grouping keeps every
/// transaction: the group sizes add up to the number of transactions.
pub proof fn lemma_first_fit_partitions(txs: Seq<TxView>)
    ensures
        conflict_free(first_fit(txs)),
        total_len(first_fit(txs)) == txs.len(),
        forall|g: int| 0 <= g < first_fit(txs).len() ==> #[trigger] first_fit(txs)[g].len() > 0,
    decreases txs.len(),
{
    if txs.len() > 0 {
        let prev = first_fit(txs.drop_last());
        let tx = txs.last();
        lemma_first_fit_partitions(txs.drop_last());
        lemma_slot_for(prev, tx);
        let s = slot_for(prev, tx);
        let next = first_fit(txs);
        if s < prev.len() {
            assert forall|g: int, a: int, b: int|
                0 <= g < next.len() && 0 <= a < next[g].len() && 0 <= b < next[g].len() && a < b
                    implies !write_sets_meet(#[trigger] next[g][a], #[trigger] next[g][b]) by {
                if g == s && b == prev[s].len() {
                    assert(next[g][a] == prev[s][a]);
                    lemma_meet_symmetric(prev[s][a], tx);
                } else if g == s {
                    assert(next[g][a] == prev[g][a]);
                    assert(next[g][b] == prev[g][b]);
                } else {
                    assert(next[g] == prev[g]);
                }
            }
            lemma_total_len_update(prev, s, prev[s].push(tx));
        } else {
            assert forall|g: int, a: int, b: int|
                0 <= g < next.len() && 0 <= a < next[g].len() && 0 <= b < next[g].len() && a < b
                    implies !write_sets_meet(#[trigger] next[g][a], #[trigger] next[g][b]) by {
                assert(next[g] == prev[g]);
            }
            assert(next.drop_last() =~= prev);
        }
        assert forall|g: int| 0 <= g < next.len() implies #[trigger] next[g].len() > 0 by {
            if g < prev.len() && g != s {
                assert(next[g] == prev[g]);
            }
        }
    }
}

proof fn lemma_meet_symmetric(a: TxView, b: TxView)
    ensures
        write_sets_meet(a, b) == write_sets_meet(b, a),
{
    if write_sets_meet(a, b) {
        let (i, j) = choose|i: int, j: int|
            0 <= i < a.write_set.len() && 0 <= j < b.write_set.len()
                && #[trigger] a.write_set[i] == #[trigger] b.write_set[j];
        assert(b.write_set[j] == a.write_set[i]);
    }
    if write_sets_meet(b, a) {
        let (i, j) = choose|i: int, j: int|
            0 <= i < b.write_set.len() && 0 <= j < a.write_set.len()
                && #[trigger] b.write_set[i] == #[trigger] a.write_set[j];
        assert(a.write_set[j] == b.write_set[i]);
    }
}

proof fn lemma_slot_for(groups: Seq<Seq<TxView>>, tx: TxView)
    ensures
        0 <= slot_for(groups, tx) <= groups.len(),
        slot_for(groups, tx) < groups.len() ==> free_of_conflict(groups[slot_for(groups, tx)], tx),
    decreases groups.len(),
{
    if groups.len() > 0 && !free_of_conflict(groups[0], tx) {
        lemma_slot_for(groups.drop_first(), tx);
    }
}

proof fn lemma_total_len_update(groups: Seq<Seq<TxView>>, s: int, g: Seq<TxView>)
    requires
        0 <= s < groups.len(),
    ensures
        total_len(groups.update(s, g)) == total_len(groups) - groups[s].len() + g.len(),
    decreases groups.len(),
{
    let u = groups.update(s, g);
    if s == groups.len() - 1 {
        assert(u.drop_last() =~= groups.drop_last());
    } else {
        lemma_total_len_update(groups.drop_last(), s, g);
        assert(u.drop_last() =~= groups.drop_last().update(s, g));
    }
}


/// Whether two byte strings are equal.
pub(crate) fn bytes_equal(a: &[u8], b: &[u8]) -> (r: bool)
    ensures
        r == (a@ == b@),
{
    if a.len() != b.len() {
        return false;
    }
    let mut i: usize = 0;
    while i < a.len()
        invariant
            a.len() == b.len(),
            i <= a.len(),
            forall|j: int| 0 <= j < i ==> a@[j] == b@[j],
        decreases a.len() - i,
    {
        if a[i] != b[i] {
            return false;
        }
        i = i + 1;
    }
    assert(a@ =~= b@);
    true
}

/// Copy of a byte vector with the same contents.
pub(crate) fn clone_bytes(v: &Vec<u8>) -> (r: Vec<u8>)
    ensures
        r@ == v@,
{
    let r = v.clone();
    proof {
        lemma_byte_vec_clone(*v, r);
    }
    r
}

/// Private part of a transaction, encrypted until its vertex is committed.
pub struct PrivateTxPayload {
    pub receiver: String,
    pub amount: u64,
    /// Contract call data.
    pub data: Vec<u8>,
    /// Randomness against dictionary attacks on the ciphertext.
    pub salt: [u8; 32],
}

/// A transaction whose receiver, amount and data are encrypted to the
/// mempool key of a round.
pub struct EncryptedTransaction {
    pub sender: String,
    pub nonce: u64,
    pub chain_id: u64,
    pub fee: u64,
    /// Round whose encapsulation key was used.
    pub round: u64,
    /// BLAKE3 digest of the plaintext payload.
    pub payload_commitment: [u8; 32],
    /// ML-KEM ciphertext of the symmetric secret.
    pub kem_ciphertext: Vec<u8>,
    /// Payload xored with the shared secret.
    pub encrypted_payload: Vec<u8>,
    pub signature: Vec<u8>,
}

/// An encrypted transaction as a mathematical value.
pub struct EtxView {
    pub sender: Seq<char>,
    pub nonce: u64,
    pub chain_id: u64,
    pub fee: u64,
    pub round: u64,
    pub payload_commitment: Seq<u8>,
    pub kem_ciphertext: Seq<u8>,
    pub encrypted_payload: Seq<u8>,
    pub signature: Seq<u8>,
}

impl View for EncryptedTransaction {
    type V = EtxView;

    open spec fn view(&self) -> EtxView {
        EtxView {
            sender: self.sender@,
            nonce: self.nonce,
            chain_id: self.chain_id,
            fee: self.fee,
            round: self.round,
            payload_commitment: self.payload_commitment@,
            kem_ciphertext: self.kem_ciphertext@,
            encrypted_payload: self.encrypted_payload@,
            signature: self.signature@,
        }
    }
}

impl Clone for EncryptedTransaction {
    fn clone(&self) -> (r: Self)
        ensures
            r@ == self@,
    {
        EncryptedTransaction {
            sender: self.sender.clone(),
            nonce: self.nonce,
            chain_id: self.chain_id,
            fee: self.fee,
            round: self.round,
            payload_commitment: self.payload_commitment,
            kem_ciphertext: clone_bytes(&self.kem_ciphertext),
            encrypted_payload: clone_bytes(&self.encrypted_payload),
            signature: clone_bytes(&self.signature),
        }
    }
}

/// A round's key, published once the round has been sealed.
pub struct RevealedRoundKey {
    pub round: u64,
    pub ek_bytes: Vec<u8>,
    pub dk_bytes: Vec<u8>,
}

/// A revealed round key as a mathematical value.
pub struct RevealedKeyView {
    pub round: u64,
    pub ek_bytes: Seq<u8>,
    pub dk_bytes: Seq<u8>,
}

impl View for RevealedRoundKey {
    type V = RevealedKeyView;

    open spec fn view(&self) -> RevealedKeyView {
        RevealedKeyView { round: self.round, ek_bytes: self.ek_bytes@, dk_bytes: self.dk_bytes@ }
    }
}

impl Clone for RevealedRoundKey {
    fn clone(&self) -> (r: Self)
        ensures
            r@ == self@,
    {
        RevealedRoundKey {
            round: self.round,
            ek_bytes: clone_bytes(&self.ek_bytes),
            dk_bytes: clone_bytes(&self.dk_bytes),
        }
    }
}

/// Legacy block; consensus works on DAG vertices.
pub struct Block {
    pub index: u64,
    pub timestamp: u64,
    pub prev_hash: String,
    pub hash: String,
    pub transactions: Vec<Transaction>,
    pub nonce: u64,
}

} // verus!
