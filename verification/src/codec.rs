//! The wire encodings of transactions and payloads: every integer and length
//! either as 8 little-endian bytes (fixed) or as a variable-length integer
//! (one byte below 251, else a marker byte and 2, 4 or 8 little-endian
//! bytes); strings as their UTF-8 bytes after their length; byte arrays of
//! fixed size as their bytes alone.

use vstd::prelude::*;
use vstd::utf8::{encode_utf8, decode_utf8, valid_utf8, encode_utf8_valid_utf8, encode_utf8_decode_utf8};
use crate::chain::{EncryptedTransaction, EtxView, PrivateTxPayload, Transaction, TxView};
use crate::outside::{text_from_chars, utf8_text};

verus! {

/// How integers and lengths are written.
#[derive(Clone, Copy, Debug, PartialEq, Eq, Structural)]
pub enum IntCoding {
    /// Eight little-endian bytes.
    Fixed,
    /// One byte below 251, else 251, 252 or 253 followed by 2, 4 or 8
    /// little-endian bytes.
    Varint,
    /// Groups of seven bits, least significant first, each byte but the
    /// last with its high bit set.
    Leb128,
}

/// The `n` low bytes of `v`, least significant first.
pub open spec fn le_bytes(v: nat, n: nat) -> Seq<u8>
    decreases n,
{
    if n == 0 {
        Seq::empty()
    } else {
        seq![(v % 256) as u8] + le_bytes(v / 256, (n - 1) as nat)
    }
}

/// `le_bytes(v, n)` has `n` bytes.
pub proof fn lemma_le_bytes_len(v: nat, n: nat)
    ensures
        le_bytes(v, n).len() == n,
    decreases n,
{
    if n > 0 {
        lemma_le_bytes_len(v / 256, (n - 1) as nat);
    }
}

/// The number that the little-endian bytes `b` write.
pub open spec fn le_value(b: Seq<u8>) -> nat
    decreases b.len(),
{
    if b.len() == 0 {
        0
    } else {
        b[0] as nat + 256 * le_value(b.drop_first())
    }
}

/// Seven-bit groups of `v`, least significant first, continuation bit
/// set on every byte but the last.
pub open spec fn leb128(v: nat) -> Seq<u8>
    decreases v,
{
    if v < 128 {
        seq![v as u8]
    } else {
        seq![(v % 128 + 128) as u8] + leb128(v / 128)
    }
}

/// Encoding of an integer.
pub open spec fn enc_u64(v: u64, c: IntCoding) -> Seq<u8> {
    match c {
        IntCoding::Leb128 => leb128(v as nat),
        IntCoding::Fixed => le_bytes(v as nat, 8),
        IntCoding::Varint => if v < 251 {
            seq![v as u8]
        } else if v < 0x1_0000 {
            seq![251u8] + le_bytes(v as nat, 2)
        } else if v < 0x1_0000_0000 {
            seq![252u8] + le_bytes(v as nat, 4)
        } else {
            seq![253u8] + le_bytes(v as nat, 8)
        },
    }
}

/// Encoding of a byte string: its length, then its bytes.
pub open spec fn enc_bytes(b: Seq<u8>, c: IntCoding) -> Seq<u8> {
    enc_u64(b.len() as u64, c) + b
}

/// Encoding of a text: its UTF-8 bytes as a byte string.
pub open spec fn enc_str(s: Seq<char>, c: IntCoding) -> Seq<u8> {
    enc_bytes(encode_utf8(s), c)
}

/// The encodings of the texts of `v`, one after the other.
pub open spec fn enc_str_items(v: Seq<Seq<char>>, c: IntCoding) -> Seq<u8>
    decreases v.len(),
{
    if v.len() == 0 {
        Seq::empty()
    } else {
        enc_str_items(v.drop_last(), c) + enc_str(v.last(), c)
    }
}

/// Encoding of a list of texts: its length, then the texts.
pub open spec fn enc_strs(v: Seq<Seq<char>>, c: IntCoding) -> Seq<u8> {
    enc_u64(v.len() as u64, c) + enc_str_items(v, c)
}

/// Encoding of a transaction, its fields in declaration order.
pub open spec fn enc_tx(t: TxView, c: IntCoding) -> Seq<u8> {
    enc_str(t.sender, c) + enc_str(t.receiver, c) + enc_u64(t.amount, c) + enc_u64(t.fee, c)
        + enc_u64(t.nonce, c) + enc_u64(t.chain_id, c) + enc_strs(t.read_set, c) + enc_strs(t.write_set, c)
        + enc_bytes(t.data, c) + enc_bytes(t.signature, c) + enc_u64(t.timestamp, c)
}

/// The message that a transaction's signature covers: the transaction with
/// an empty signature, integers as variable-length integers.
pub open spec fn signing_bytes(t: TxView) -> Seq<u8> {
    enc_tx(TxView { signature: Seq::empty(), ..t }, IntCoding::Varint)
}

pub(crate) fn push_le(out: &mut Vec<u8>, v: u64, n: usize)
    requires
        n <= 8,
    ensures
        final(out)@ == old(out)@ + le_bytes(v as nat, n as nat),
{
    let ghost start = out@;
    let mut rest: u64 = v;
    let mut i: usize = 0;
    while i < n
        invariant
            i <= n,
            out@ + le_bytes(rest as nat, (n - i) as nat) == start + le_bytes(v as nat, n as nat),
        decreases n - i,
    {
        let ghost before = out@;
        let ghost r = rest;
        out.push((rest % 256) as u8);
        rest = rest / 256;
        proof {
            assert(le_bytes(r as nat, (n - i) as nat) == seq![(r % 256) as u8] + le_bytes(rest as nat, (n - i - 1) as nat));
            assert(out@ + le_bytes(rest as nat, (n - i - 1) as nat) =~= before + le_bytes(r as nat, (n - i) as nat));
        }
        i = i + 1;
    }
    assert(le_bytes(rest as nat, 0) =~= Seq::<u8>::empty());
    assert(out@ =~= start + le_bytes(v as nat, n as nat));
}

/// Appends the encoding of `v`.
pub fn push_u64(out: &mut Vec<u8>, v: u64, c: IntCoding)
    ensures
        final(out)@ == old(out)@ + enc_u64(v, c),
{
    match c {
        IntCoding::Leb128 => {
            let ghost start = out@;
            let mut rest: u64 = v;
            while rest >= 128
                invariant
                    out@ + leb128(rest as nat) == start + leb128(v as nat),
                decreases rest,
            {
                let ghost before = out@;
                let ghost r = rest;
                out.push((rest % 128 + 128) as u8);
                rest = rest / 128;
                assert(out@ + leb128(rest as nat) =~= before + leb128(r as nat));
            }
            out.push(rest as u8);
            assert(out@ =~= start + leb128(v as nat));
        },
        IntCoding::Fixed => push_le(out, v, 8),
        IntCoding::Varint => {
            if v < 251 {
                out.push(v as u8);
                assert(out@ =~= old(out)@ + enc_u64(v, c));
            } else if v < 0x1_0000 {
                out.push(251u8);
                push_le(out, v, 2);
                assert(out@ =~= old(out)@ + enc_u64(v, c));
            } else if v < 0x1_0000_0000 {
                out.push(252u8);
                push_le(out, v, 4);
                assert(out@ =~= old(out)@ + enc_u64(v, c));
            } else {
                out.push(253u8);
                push_le(out, v, 8);
                assert(out@ =~= old(out)@ + enc_u64(v, c));
            }
        },
    }
}

/// Appends `b` as a byte string.
pub fn push_bytes(out: &mut Vec<u8>, b: &[u8], c: IntCoding)
    ensures
        final(out)@ == old(out)@ + enc_bytes(b@, c),
{
    let ghost start = out@;
    push_u64(out, b.len() as u64, c);
    let ghost mid = out@;
    let mut i: usize = 0;
    while i < b.len()
        invariant
            i <= b.len(),
            out@ == mid + b@.subrange(0, i as int),
        decreases b.len() - i,
    {
        out.push(b[i]);
        assert(out@ =~= mid + b@.subrange(0, i + 1));
        i = i + 1;
    }
    assert(b@.subrange(0, b.len() as int) =~= b@);
    assert(out@ =~= start + enc_bytes(b@, c));
}

/// Appends `s` as a text.
pub fn push_str(out: &mut Vec<u8>, s: &str, c: IntCoding)
    ensures
        final(out)@ == old(out)@ + enc_str(s@, c),
{
    push_bytes(out, s.as_bytes(), c);
}

/// Appends a list of texts.
pub fn push_strs(out: &mut Vec<u8>, v: &Vec<String>, c: IntCoding)
    ensures
        final(out)@ == old(out)@ + enc_strs(v@.map_values(|s: String| s@), c),
{
    let ghost names = v@.map_values(|s: String| s@);
    let ghost start = out@;
    push_u64(out, v.len() as u64, c);
    let ghost mid = out@;
    let mut i: usize = 0;
    while i < v.len()
        invariant
            names == v@.map_values(|s: String| s@),
            i <= v.len(),
            out@ == mid + enc_str_items(names.subrange(0, i as int), c),
        decreases v.len() - i,
    {
        push_str(out, v[i].as_str(), c);
        proof {
            let next = names.subrange(0, i + 1);
            assert(next.drop_last() =~= names.subrange(0, i as int));
            assert(out@ =~= mid + enc_str_items(next, c));
        }
        i = i + 1;
    }
    assert(names.subrange(0, v.len() as int) =~= names);
    assert(out@ =~= start + enc_strs(names, c));
}

/// Appends the encoding of `tx`, with `signature` in place of its own.
fn push_tx_with_signature(out: &mut Vec<u8>, tx: &Transaction, signature: &[u8], c: IntCoding)
    ensures
        final(out)@ == old(out)@ + enc_tx(TxView { signature: signature@, ..tx@ }, c),
{
    let ghost start = out@;
    push_str(out, tx.sender.as_str(), c);
    push_str(out, tx.receiver.as_str(), c);
    push_u64(out, tx.amount, c);
    push_u64(out, tx.fee, c);
    push_u64(out, tx.nonce, c);
    push_u64(out, tx.chain_id, c);
    push_strs(out, &tx.read_set, c);
    push_strs(out, &tx.write_set, c);
    push_bytes(out, tx.data.as_slice(), c);
    push_bytes(out, signature, c);
    push_u64(out, tx.timestamp, c);
    assert(out@ =~= start + enc_tx(TxView { signature: signature@, ..tx@ }, c));
}

/// Encoding of `tx`.
pub fn encode_transaction(tx: &Transaction, c: IntCoding) -> (r: Vec<u8>)
    ensures
        r@ == enc_tx(tx@, c),
{
    let mut out: Vec<u8> = Vec::new();
    push_tx_with_signature(&mut out, tx, tx.signature.as_slice(), c);
    assert(TxView { signature: tx@.signature, ..tx@ } == tx@);
    assert(out@ =~= enc_tx(tx@, c));
    out
}

impl Transaction {
    /// The message that the transaction's signature covers.
    pub fn signing_message(&self) -> (r: Vec<u8>)
        ensures
            r@ == signing_bytes(self@),
    {
        let mut out: Vec<u8> = Vec::new();
        let empty: Vec<u8> = Vec::new();
        push_tx_with_signature(&mut out, self, empty.as_slice(), IntCoding::Varint);
        assert(out@ =~= signing_bytes(self@));
        out
    }
}


/// The encodings of the transactions of `v`, one after the other.
pub open spec fn enc_tx_items(v: Seq<TxView>, c: IntCoding) -> Seq<u8>
    decreases v.len(),
{
    if v.len() == 0 {
        Seq::empty()
    } else {
        enc_tx_items(v.drop_last(), c) + enc_tx(v.last(), c)
    }
}

/// Encoding of a list of transactions: its length, then the transactions.
pub open spec fn enc_txs(v: Seq<TxView>, c: IntCoding) -> Seq<u8> {
    enc_u64(v.len() as u64, c) + enc_tx_items(v, c)
}

/// Encoding of a list of transactions.
pub fn encode_transactions(txs: &[Transaction], c: IntCoding) -> (r: Vec<u8>)
    ensures
        r@ == enc_txs(txs@.map_values(|t: Transaction| t@), c),
{
    let ghost views = txs@.map_values(|t: Transaction| t@);
    let mut out: Vec<u8> = Vec::new();
    push_u64(&mut out, txs.len() as u64, c);
    let ghost mid = out@;
    let mut i: usize = 0;
    while i < txs.len()
        invariant
            views == txs@.map_values(|t: Transaction| t@),
            i <= txs.len(),
            out@ == mid + enc_tx_items(views.subrange(0, i as int), c),
        decreases txs.len() - i,
    {
        let ghost before = out@;
        push_tx_with_signature(&mut out, &txs[i], txs[i].signature.as_slice(), c);
        proof {
            assert(TxView { signature: txs[i as int]@.signature, ..txs[i as int]@ } == txs[i as int]@);
            let next = views.subrange(0, i + 1);
            assert(next.drop_last() =~= views.subrange(0, i as int));
            assert(out@ =~= mid + enc_tx_items(next, c));
        }
        i = i + 1;
    }
    assert(views.subrange(0, txs.len() as int) =~= views);
    out
}

/// Encoding of an encrypted transaction, its fields in declaration order
/// (the commitment as its 32 bytes).
pub open spec fn enc_etx(e: EtxView, c: IntCoding) -> Seq<u8> {
    enc_str(e.sender, c) + enc_u64(e.nonce, c) + enc_u64(e.chain_id, c) + enc_u64(e.fee, c) + enc_u64(e.round, c)
        + e.payload_commitment + enc_bytes(e.kem_ciphertext, c) + enc_bytes(e.encrypted_payload, c)
        + enc_bytes(e.signature, c)
}

/// The encodings of the encrypted transactions of `v`, one after the other.
pub open spec fn enc_etx_items(v: Seq<EtxView>, c: IntCoding) -> Seq<u8>
    decreases v.len(),
{
    if v.len() == 0 {
        Seq::empty()
    } else {
        enc_etx_items(v.drop_last(), c) + enc_etx(v.last(), c)
    }
}

/// Encoding of a list of encrypted transactions.
pub open spec fn enc_etxs(v: Seq<EtxView>, c: IntCoding) -> Seq<u8> {
    enc_u64(v.len() as u64, c) + enc_etx_items(v, c)
}

fn push_raw(out: &mut Vec<u8>, b: &[u8])
    ensures
        final(out)@ == old(out)@ + b@,
{
    let ghost start = out@;
    let mut i: usize = 0;
    while i < b.len()
        invariant
            i <= b.len(),
            out@ == start + b@.subrange(0, i as int),
        decreases b.len() - i,
    {
        out.push(b[i]);
        assert(out@ =~= start + b@.subrange(0, i + 1));
        i = i + 1;
    }
    assert(b@.subrange(0, b.len() as int) =~= b@);
}

/// Appends the encoding of `etx`.
pub fn push_encrypted(out: &mut Vec<u8>, etx: &EncryptedTransaction, c: IntCoding)
    ensures
        final(out)@ == old(out)@ + enc_etx(etx@, c),
{
    let ghost start = out@;
    push_str(out, etx.sender.as_str(), c);
    push_u64(out, etx.nonce, c);
    push_u64(out, etx.chain_id, c);
    push_u64(out, etx.fee, c);
    push_u64(out, etx.round, c);
    push_raw(out, &etx.payload_commitment);
    push_bytes(out, etx.kem_ciphertext.as_slice(), c);
    push_bytes(out, etx.encrypted_payload.as_slice(), c);
    push_bytes(out, etx.signature.as_slice(), c);
    assert(out@ =~= start + enc_etx(etx@, c));
}

/// Encoding of `etx`.
pub fn encode_encrypted(etx: &EncryptedTransaction, c: IntCoding) -> (r: Vec<u8>)
    ensures
        r@ == enc_etx(etx@, c),
{
    let mut out: Vec<u8> = Vec::new();
    push_encrypted(&mut out, etx, c);
    assert(out@ =~= enc_etx(etx@, c));
    out
}

/// Encoding of a list of encrypted transactions.
pub fn encode_encrypted_list(etxs: &[EncryptedTransaction], c: IntCoding) -> (r: Vec<u8>)
    ensures
        r@ == enc_etxs(etxs@.map_values(|e: EncryptedTransaction| e@), c),
{
    let ghost views = etxs@.map_values(|e: EncryptedTransaction| e@);
    let mut out: Vec<u8> = Vec::new();
    push_u64(&mut out, etxs.len() as u64, c);
    let ghost mid = out@;
    let mut i: usize = 0;
    while i < etxs.len()
        invariant
            views == etxs@.map_values(|e: EncryptedTransaction| e@),
            i <= etxs.len(),
            out@ == mid + enc_etx_items(views.subrange(0, i as int), c),
        decreases etxs.len() - i,
    {
        push_encrypted(&mut out, &etxs[i], c);
        proof {
            let next = views.subrange(0, i + 1);
            assert(next.drop_last() =~= views.subrange(0, i as int));
            assert(out@ =~= mid + enc_etx_items(next, c));
        }
        i = i + 1;
    }
    assert(views.subrange(0, etxs.len() as int) =~= views);
    out
}

/// A private payload as a mathematical value.
pub struct PayloadView {
    pub receiver: Seq<char>,
    pub amount: u64,
    pub data: Seq<u8>,
    pub salt: Seq<u8>,
}

impl View for PrivateTxPayload {
    type V = PayloadView;

    open spec fn view(&self) -> PayloadView {
        PayloadView { receiver: self.receiver@, amount: self.amount, data: self.data@, salt: self.salt@ }
    }
}

/// Fixed-width encoding of a payload (the salt as its 32 bytes).
pub open spec fn enc_payload(p: PayloadView) -> Seq<u8> {
    enc_str(p.receiver, IntCoding::Fixed) + enc_u64(p.amount, IntCoding::Fixed) + enc_bytes(p.data, IntCoding::Fixed)
        + p.salt
}

/// Fixed-width encoding of `payload`.
pub fn encode_payload(payload: &PrivateTxPayload) -> (r: Vec<u8>)
    ensures
        r@ == enc_payload(payload@),
{
    let mut out: Vec<u8> = Vec::new();
    push_str(&mut out, payload.receiver.as_str(), IntCoding::Fixed);
    push_u64(&mut out, payload.amount, IntCoding::Fixed);
    push_bytes(&mut out, payload.data.as_slice(), IntCoding::Fixed);
    push_raw(&mut out, &payload.salt);
    assert(out@ =~= enc_payload(payload@));
    out
}

/// 256 to the power `n`.
pub open spec fn pow256(n: nat) -> nat
    decreases n,
{
    if n == 0 { 1 } else { 256 * pow256((n - 1) as nat) }
}

/// The fixed-width integer at `pos`, and the position after it.
pub open spec fn parse_u64(b: Seq<u8>, pos: int) -> Option<(u64, int)> {
    if 0 <= pos && pos + 8 <= b.len() {
        Some((le_value(b.subrange(pos, pos + 8)) as u64, pos + 8))
    } else {
        None
    }
}

/// The length-prefixed byte string at `pos`, and the position after it.
pub open spec fn parse_bytes(b: Seq<u8>, pos: int) -> Option<(Seq<u8>, int)> {
    match parse_u64(b, pos) {
        Some((n, p)) => if p + n <= b.len() { Some((b.subrange(p, p + n), p + n)) } else { None },
        None => None,
    }
}

/// The length-prefixed UTF-8 text at `pos`, and the position after it.
pub open spec fn parse_str(b: Seq<u8>, pos: int) -> Option<(Seq<char>, int)> {
    match parse_bytes(b, pos) {
        Some((s, p)) => if valid_utf8(s) { Some((decode_utf8(s), p)) } else { None },
        None => None,
    }
}

/// The payload that the bytes `b` begin with, if they begin with one;
/// bytes after it are ignored.
pub open spec fn parse_payload(b: Seq<u8>) -> Option<PayloadView> {
    match parse_str(b, 0) {
        Some((receiver, p1)) => match parse_u64(b, p1) {
            Some((amount, p2)) => match parse_bytes(b, p2) {
                Some((data, p3)) => if p3 + 32 <= b.len() {
                    Some(PayloadView { receiver, amount, data, salt: b.subrange(p3, p3 + 32) })
                } else {
                    None
                },
                None => None,
            },
            None => None,
        },
        None => None,
    }
}

proof fn lemma_le_value_bound(b: Seq<u8>)
    ensures
        le_value(b) < pow256(b.len()),
    decreases b.len(),
{
    if b.len() > 0 {
        lemma_le_value_bound(b.drop_first());
        let r = le_value(b.drop_first());
        let p = pow256((b.len() - 1) as nat);
        assert(b[0] as nat + 256 * r < 256 * p) by (nonlinear_arith)
            requires
                r < p,
                b[0] < 256,
        ;
    }
}

fn read_u64(b: &[u8], pos: usize) -> (r: Option<(u64, usize)>)
    ensures
        match (r, parse_u64(b@, pos as int)) {
            (Some((v, p)), Some((w, q))) => v == w && p == q,
            (None, None) => true,
            _ => false,
        },
{
    if pos > b.len() || b.len() - pos < 8 {
        return None;
    }
    let mut acc: u64 = 0;
    let mut i: usize = 8;
    while i > 0
        invariant
            pos + 8 <= b.len(),
            i <= 8,
            acc == le_value(b@.subrange(pos + i, pos + 8)),
        decreases i,
    {
        proof {
            lemma_le_value_bound(b@.subrange(pos + i, pos + 8));
            assert(pow256((8 - i) as nat) <= pow256(7)) by {
                lemma_pow256_monotone((8 - i) as nat, 7);
            }
            assert(pow256(7) == 0x100_0000_0000_0000) by {
                reveal_with_fuel(pow256, 8);
            }
        }
        let byte = b[pos + i - 1];
        proof {
            let s = b@.subrange(pos + i - 1, pos + 8);
            assert(s.drop_first() =~= b@.subrange(pos + i, pos + 8));
            assert(s[0] == byte);
        }
        acc = byte as u64 + 256 * acc;
        i = i - 1;
    }
    proof {
        lemma_le_value_bound(b@.subrange(pos as int, pos + 8));
        assert(pow256(8) == 0x1_0000_0000_0000_0000) by {
            reveal_with_fuel(pow256, 9);
        }
    }
    Some((acc, pos + 8))
}

proof fn lemma_pow256_monotone(m: nat, n: nat)
    requires
        m <= n,
    ensures
        pow256(m) <= pow256(n),
    decreases n,
{
    if m < n {
        lemma_pow256_monotone(m, (n - 1) as nat);
    }
}


fn read_bytes(b: &[u8], pos: usize) -> (r: Option<(Vec<u8>, usize)>)
    ensures
        match (r, parse_bytes(b@, pos as int)) {
            (Some((v, p)), Some((w, q))) => v@ == w && p == q,
            (None, None) => true,
            _ => false,
        },
{
    match read_u64(b, pos) {
        None => None,
        Some((n, p)) => {
            if ((b.len() - p) as u64) < n {
                return None;
            }
            let n = n as usize;
            let mut v: Vec<u8> = Vec::new();
            let mut i: usize = 0;
            while i < n
                invariant
                    p + n <= b.len(),
                    i <= n,
                    v@ == b@.subrange(p as int, p + i),
                decreases n - i,
            {
                v.push(b[p + i]);
                assert(v@ =~= b@.subrange(p as int, p + i + 1));
                i = i + 1;
            }
            Some((v, p + n))
        },
    }
}

fn read_str(b: &[u8], pos: usize) -> (r: Option<(String, usize)>)
    ensures
        match (r, parse_str(b@, pos as int)) {
            (Some((v, p)), Some((w, q))) => v@ == w && p == q,
            (None, None) => true,
            _ => false,
        },
{
    match read_bytes(b, pos) {
        None => None,
        Some((bytes, p)) => match utf8_text(bytes.as_slice()) {
            None => None,
            Some(text) => Some((text, p)),
        },
    }
}

/// Decodes the payload that `bytes` begin with (fixed-width encoding);
/// `None` when they do not begin with one.
pub fn decode_payload(bytes: &[u8]) -> (r: Option<PrivateTxPayload>)
    ensures
        match (r, parse_payload(bytes@)) {
            (Some(p), Some(q)) => p@ == q,
            (None, None) => true,
            _ => false,
        },
{
    let (receiver, p1) = match read_str(bytes, 0) {
        None => return None,
        Some(x) => x,
    };
    let (amount, p2) = match read_u64(bytes, p1) {
        None => return None,
        Some(x) => x,
    };
    let (data, p3) = match read_bytes(bytes, p2) {
        None => return None,
        Some(x) => x,
    };
    if bytes.len() - p3 < 32 {
        return None;
    }
    let mut salt = [0u8; 32];
    let mut i: usize = 0;
    while i < 32
        invariant
            p3 + 32 <= bytes.len(),
            i <= 32,
            forall|j: int| 0 <= j < i ==> salt@[j] == bytes@[p3 + j],
        decreases 32 - i,
    {
        salt[i] = bytes[p3 + i];
        i = i + 1;
    }
    assert(salt@ =~= bytes@.subrange(p3 as int, p3 + 32));
    Some(PrivateTxPayload { receiver, amount, data, salt })
}

proof fn lemma_le_roundtrip(v: nat, n: nat)
    requires
        v < pow256(n),
    ensures
        le_bytes(v, n).len() == n,
        le_value(le_bytes(v, n)) == v,
    decreases n,
{
    if n > 0 {
        let q = v / 256;
        let p = pow256((n - 1) as nat);
        assert(q < p) by (nonlinear_arith)
            requires
                v < 256 * p,
                q == v / 256,
        ;
        lemma_le_roundtrip(q, (n - 1) as nat);
        let s = le_bytes(v, n);
        assert(s.drop_first() =~= le_bytes(q, (n - 1) as nat));
        assert(v == v % 256 + 256 * q) by (nonlinear_arith)
            requires
                q == v / 256,
        ;
    }
}

/// Decoding the encoding of a payload gives it back, whatever follows it.
pub proof fn lemma_payload_roundtrip(p: PayloadView, rest: Seq<u8>)
    requires
        p.salt.len() == 32,
        encode_utf8(p.receiver).len() <= u64::MAX,
        p.data.len() <= u64::MAX,
    ensures
        parse_payload(enc_payload(p) + rest) == Some(p),
{
    broadcast use encode_utf8_valid_utf8, encode_utf8_decode_utf8;

    let b = enc_payload(p) + rest;
    let name = encode_utf8(p.receiver);
    assert(pow256(8) == 0x1_0000_0000_0000_0000) by {
        reveal_with_fuel(pow256, 9);
    }
    lemma_le_roundtrip(name.len() as nat, 8);
    lemma_le_roundtrip(p.amount as nat, 8);
    lemma_le_roundtrip(p.data.len() as nat, 8);
    let n1 = name.len() as int;
    let n2 = p.data.len() as int;
    assert(b.subrange(0, 8) =~= le_bytes(name.len() as nat, 8));
    assert(b.subrange(8, 8 + n1) =~= name);
    assert(b.subrange(8 + n1, 16 + n1) =~= le_bytes(p.amount as nat, 8));
    assert(b.subrange(16 + n1, 24 + n1) =~= le_bytes(p.data.len() as nat, 8));
    assert(b.subrange(24 + n1, 24 + n1 + n2) =~= p.data);
    assert(b.subrange(24 + n1 + n2, 56 + n1 + n2) =~= p.salt);
}


/// The decimal digit for a value below ten.
pub open spec fn digit_char(d: nat) -> char {
    ((d + 48) as u8) as char
}

/// Decimal text of `n`, without leading zeros.
pub open spec fn decimal(n: nat) -> Seq<char>
    decreases n,
{
    if n < 10 {
        seq![digit_char(n)]
    } else {
        decimal(n / 10).push(digit_char(n % 10))
    }
}

/// Decimal text is never empty; from 10 on it has at least two digits.
pub proof fn lemma_decimal_len(n: nat)
    ensures
        decimal(n).len() >= 1,
        n >= 10 ==> decimal(n).len() >= 2,
    decreases n,
{
    if n >= 10 {
        lemma_decimal_len(n / 10);
    }
}

/// Different numbers have different decimal texts.
pub proof fn lemma_decimal_injective(a: nat, b: nat)
    ensures
        decimal(a) == decimal(b) ==> a == b,
    decreases a,
{
    lemma_decimal_len(a);
    lemma_decimal_len(b);
    if decimal(a) == decimal(b) {
        if a < 10 && b < 10 {
            assert(decimal(a)[0] == digit_char(a) && decimal(b)[0] == digit_char(b));
            assert((digit_char(a) as int) == a + 48);
            assert((digit_char(b) as int) == b + 48);
        } else if a >= 10 && b >= 10 {
            lemma_decimal_injective(a / 10, b / 10);
            assert(decimal(a).drop_last() == decimal(a / 10));
            assert(decimal(b).drop_last() == decimal(b / 10));
            assert(decimal(a).last() == digit_char(a % 10) && decimal(b).last() == digit_char(b % 10));
            assert((digit_char(a % 10) as int) == a % 10 + 48);
            assert((digit_char(b % 10) as int) == b % 10 + 48);
        }
    }
}

/// Decimal text of `n`.
pub fn decimal_text(n: u64) -> (s: String)
    ensures
        s@ == decimal(n as nat),
{
    let mut rev: Vec<char> = Vec::new();
    let mut rest: u64 = n;
    let ghost mut acc: Seq<char> = Seq::empty();
    loop
        invariant_except_break
            decimal(n as nat) == decimal(rest as nat) + acc,
        invariant
            rev@ == acc.reverse(),
        ensures
            decimal(n as nat) == acc,
        decreases rest,
    {
        let d = rest % 10;
        let c = ((d + 48) as u8) as char;
        if rest < 10 {
            proof {
                assert(decimal(rest as nat) == seq![c]);
                acc = seq![c] + acc;
                assert(decimal(n as nat) =~= acc);
            }
            rev.push(c);
            assert(rev@ =~= acc.reverse());
            break;
        }
        proof {
            assert(decimal(rest as nat) == decimal((rest / 10) as nat).push(c));
            assert(decimal((rest / 10) as nat).push(c) + acc =~= decimal((rest / 10) as nat) + (seq![c] + acc));
            acc = seq![c] + acc;
        }
        rev.push(c);
        assert(rev@ =~= acc.reverse());
        rest = rest / 10;
    }
    let mut out: Vec<char> = Vec::new();
    let mut i: usize = rev.len();
    while i > 0
        invariant
            i <= rev@.len(),
            out@ == rev@.subrange(i as int, rev@.len() as int).reverse(),
        decreases i,
    {
        i = i - 1;
        out.push(rev[i]);
        assert(out@ =~= rev@.subrange(i as int, rev@.len() as int).reverse());
    }
    assert(rev@.subrange(0, rev@.len() as int) =~= rev@);
    assert(out@ =~= acc);
    text_from_chars(&out)
}

} // verus!
