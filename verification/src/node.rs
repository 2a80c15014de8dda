//! What the node's request handlers decide and change: request rate
//! limits, the faucet, bridge minting, the exchange's requests and quotes,
//! wallets and the signing and submission of transfers, and validator
//! applications. Reading requests and writing responses is the
//! application's.

use vstd::prelude::*;
use vstd::utf8::{encode_utf8, encode_utf8_decode_utf8};
use crate::chain::{EncryptedTransaction, Transaction, TxView, CHAIN_ID, MIN_FEE};
use crate::codec::{decimal, decimal_text, encode_transaction, enc_bytes, enc_tx, push_bytes, push_str, push_strs, push_u64, IntCoding};
use crate::consensus::{etx_digest, tx_digest, ConsensusEngine};
use crate::crypto::{CryptoError, SigningKeyPair, Verifier};
use crate::dex::{dex_error_text, swap_defined, swap_fee, swap_output, DexError, LiquidityPool, SwapDirection};
use crate::text::{trim, trimmed};
use crate::ledger::{funds_of, sat_add, signer_key, Account, Funds, LedgerView, StateDB};
use crate::outside::{
    blake3_digest, blake3_hash, hex_decode, hex_decoded, hex_encode, hex_encoded, mldsa65_accepts,
    mldsa65_pkcs8_valid, mldsa65_public_key, postcard_byte_string, postcard_decode_bytes, unix_now_secs,
};
use crate::tokens::{balance_key, balance_in, credit_result, after_credit, after_debit, TokenError, SUPPORTED_TOKENS};

verus! {

/// Seconds an address waits between two faucet payments.
pub const FAUCET_COOLDOWN_SECS: u64 = 86_400;

/// Length of a request-counting window, in seconds.
pub const API_RATE_WINDOW_SECS: u64 = 60;

/// Requests an IP may make in one window.
pub const API_RATE_MAX_REQ: u32 = 60;

/// Largest faucet payment.
pub const MAX_FAUCET: u64 = 1_000;

/// Faucet payment when none is asked for.
pub const DEFAULT_FAUCET: u64 = 100;

/// Largest amount one bridge mint may create.
pub const MAX_MINT_PER_TX: u64 = 1_000_000_000_000;

/// Seconds since the Unix epoch, by the machine's clock.
pub fn now_secs() -> (t: u64) {
    unix_now_secs()
}

/// One request from an IP whose window is `entry` (count, start), at time
/// `now`: a window older than `API_RATE_WINDOW_SECS` restarts with this
/// request; otherwise the request is counted. The new window, and whether
/// the request is over the limit.
pub open spec fn rate_step(entry: Option<(u32, u64)>, now: u64) -> ((u32, u64), bool) {
    let (count, start) = match entry { Some(e) => e, None => (0u32, now) };
    if now - start > API_RATE_WINDOW_SECS {
        ((1u32, now), false)
    } else {
        (((count + 1) as u32, start), count + 1 > API_RATE_MAX_REQ)
    }
}

/// The answers to requests at `times`, in order, from the window `entry`.
pub open spec fn rate_answers(entry: Option<(u32, u64)>, times: Seq<u64>) -> Seq<bool>
    decreases times.len(),
{
    if times.len() == 0 {
        Seq::empty()
    } else {
        let (w, over) = rate_step(entry, times[0]);
        seq![over] + rate_answers(Some(w), times.drop_first())
    }
}

/// Within one window that holds `count` requests since `start`, the `k`-th
/// further request (from 0) is over the limit exactly when `count + k + 1`
/// passes `API_RATE_MAX_REQ`.
proof fn lemma_rate_window(count: u32, start: u64, times: Seq<u64>)
    requires
        count + times.len() < u32::MAX,
        forall|i: int| 0 <= i < times.len() ==> start <= #[trigger] times[i] && times[i] - start <= API_RATE_WINDOW_SECS,
    ensures
        rate_answers(Some((count, start)), times).len() == times.len(),
        forall|k: int| 0 <= k < times.len() ==>
            #[trigger] rate_answers(Some((count, start)), times)[k] == (count + k + 1 > API_RATE_MAX_REQ),
    decreases times.len(),
{
    if times.len() > 0 {
        let rest = times.drop_first();
        assert forall|i: int| 0 <= i < rest.len() implies start <= #[trigger] rest[i] && rest[i] - start <= API_RATE_WINDOW_SECS by {
            assert(rest[i] == times[i + 1]);
        }
        assert(start <= times[0]);
        lemma_rate_window((count + 1) as u32, start, rest);
        let a = rate_answers(Some((count, start)), times);
        let tail = rate_answers(Some(((count + 1) as u32, start)), rest);
        assert(a == seq![count + 1 > API_RATE_MAX_REQ] + tail);
        assert forall|k: int| 0 <= k < times.len() implies #[trigger] a[k] == (count + k + 1 > API_RATE_MAX_REQ) by {
            if k > 0 {
                assert(a[k] == tail[k - 1]);
            }
        }
    }
}

/// The rate limit over a run of requests from one IP: when its window is
/// new (`None`) or older than `API_RATE_WINDOW_SECS` at the first request,
/// and every request comes within `API_RATE_WINDOW_SECS` of the first, the
/// first `API_RATE_MAX_REQ` requests pass and every later one is refused.
pub proof fn lemma_rate_limit_run(entry: Option<(u32, u64)>, times: Seq<u64>)
    requires
        times.len() > 0,
        times.len() < u32::MAX,
        entry matches Some(e) ==> e.1 <= times[0] && times[0] - e.1 > API_RATE_WINDOW_SECS,
        forall|i: int| 0 <= i < times.len() ==> times[0] <= #[trigger] times[i] && times[i] - times[0] <= API_RATE_WINDOW_SECS,
    ensures
        rate_answers(entry, times).len() == times.len(),
        forall|k: int| 0 <= k < times.len() ==> #[trigger] rate_answers(entry, times)[k] == (k >= API_RATE_MAX_REQ),
{
    let t0 = times[0];
    let rest = times.drop_first();
    assert(rate_step(entry, t0) == ((1u32, t0), false));
    assert forall|i: int| 0 <= i < rest.len() implies t0 <= #[trigger] rest[i] && rest[i] - t0 <= API_RATE_WINDOW_SECS by {
        assert(rest[i] == times[i + 1]);
    }
    lemma_rate_window(1u32, t0, rest);
    let a = rate_answers(entry, times);
    let tail = rate_answers(Some((1u32, t0)), rest);
    assert(a == seq![false] + tail);
    assert forall|k: int| 0 <= k < times.len() implies #[trigger] a[k] == (k >= API_RATE_MAX_REQ) by {
        if k > 0 {
            assert(a[k] == tail[k - 1]);
        }
    }
}

/// One request from an IP whose window is `entry` (count, start), at time
/// `now` (see `rate_step`): returns the new window and whether the request
/// is over the limit.
pub fn ip_rate_limit(entry: Option<(u32, u64)>, now: u64) -> (r: ((u32, u64), bool))
    requires
        entry matches Some(e) ==> e.1 <= now && e.0 < u32::MAX,
    ensures
        r == rate_step(entry, now),
{
    let (count, start) = match entry {
        Some(e) => e,
        None => (0u32, now),
    };
    if now - start > API_RATE_WINDOW_SECS {
        ((1u32, now), false)
    } else {
        let c = count + 1;
        ((c, start), c > API_RATE_MAX_REQ)
    }
}

/// Answer to a submitted transaction.
pub struct TxResponse {
    pub accepted: bool,
    pub message: String,
    pub tx_hash: Option<String>,
}

/// `tx` is the transfer of `amount` with `fee` from `sender` to `receiver`
/// at nonce `nonce` on this chain, carrying no data.
pub open spec fn is_transfer(tx: TxView, sender: Seq<char>, receiver: Seq<char>, amount: u64, fee: u64, nonce: u64) -> bool {
    &&& tx.sender == sender
    &&& tx.receiver == receiver
    &&& tx.amount == amount
    &&& tx.fee == fee
    &&& tx.nonce == nonce
    &&& tx.chain_id == CHAIN_ID
    &&& tx.read_set == seq![sender, receiver]
    &&& tx.write_set == seq![sender, receiver]
    &&& tx.data == Seq::<u8>::empty()
}

/// The bytes that a submitted transfer's signature covers: the transfer
/// with an empty signature, integers in seven-bit groups.
pub open spec fn submission_bytes(tx: TxView) -> Seq<u8> {
    enc_tx(TxView { signature: Seq::empty(), ..tx }, IntCoding::Leb128)
}

/// Signs, with `kp`, a transfer of `amount` with `fee` from `sender_addr`
/// to `receiver` at the sender's current nonce, stamped now, and adds it to
/// the mempool; the answer carries the hex BLAKE3 digest of the signed
/// bytes.
pub fn sign_and_submit(
    kp: &SigningKeyPair,
    sender_addr: &str,
    receiver: String,
    amount: u64,
    fee: u64,
    consensus: &mut ConsensusEngine,
) -> (resp: TxResponse)
    requires
        old(consensus).wf(),
        kp.wf(),
    ensures
        final(consensus).wf(),
        final(consensus).state == old(consensus).state,
        final(consensus).dag == old(consensus).dag,
        final(consensus).threshold_mempool == old(consensus).threshold_mempool,
        final(consensus).validators == old(consensus).validators,
        final(consensus).current_round == old(consensus).current_round,
        final(consensus).committed_vertices == old(consensus).committed_vertices,
        final(consensus).mempool.keypair == old(consensus).mempool.keypair,
        final(consensus).mempool@.pending_encrypted == old(consensus).mempool@.pending_encrypted,
        resp.accepted ==> exists|tx: TxView| {
            &&& is_transfer(tx, sender_addr@, receiver@, amount, fee, funds_of(old(consensus).state@.accounts, sender_addr@).nonce)
            &&& mldsa65_accepts(kp.public_key_spec(), submission_bytes(tx), tx.signature)
            &&& final(consensus).mempool@.pending == old(consensus).mempool@.pending.insert(tx_digest(tx), tx)
            &&& resp.tx_hash matches Some(h) && h@ == hex_encoded(blake3_digest(submission_bytes(tx)))
        },
        !resp.accepted ==> final(consensus).mempool@ == old(consensus).mempool@ && resp.tx_hash is None,
        resp.message@ == if resp.accepted { "TX enviada al mempool"@ } else { "Sign: SigningError"@ },
{
    let nonce = match consensus.state.get_account(sender_addr) {
        Some(a) => a.nonce,
        None => 0,
    };
    let read_set = vec![sender_addr.to_owned(), receiver.clone()];
    let write_set = vec![sender_addr.to_owned(), receiver.clone()];
    let mut tx = Transaction {
        sender: sender_addr.to_owned(),
        receiver,
        amount,
        fee,
        nonce,
        chain_id: CHAIN_ID,
        read_set,
        write_set,
        data: Vec::new(),
        signature: Vec::new(),
        timestamp: now_secs(),
    };
    let msg = encode_transaction(&tx, IntCoding::Leb128);
    proof {
        assert(TxView { signature: Seq::empty(), ..tx@ } == tx@);
    }
    let sig = match kp.sign(msg.as_slice()) {
        Ok(s) => s,
        Err(_) => {
            return TxResponse { accepted: false, message: String::from_str("Sign: SigningError"), tx_hash: None };
        },
    };
    let ghost unsigned = tx@;
    tx.signature = sig;
    let digest = blake3_hash(msg.as_slice());
    let tx_hash = hex_encode(&digest);
    let ghost signed = tx@;
    proof {
        assert(TxView { signature: Seq::empty(), ..signed } == unsigned);
        assert(signed.read_set =~= seq![sender_addr@, unsigned.receiver]);
        assert(signed.write_set =~= seq![sender_addr@, unsigned.receiver]);
        assert(submission_bytes(signed) == msg@);
        assert(is_transfer(signed, sender_addr@, unsigned.receiver, amount, fee, nonce));
    }
    let ghost before = consensus.mempool@.pending;
    consensus.mempool.add_transaction(tx);
    let resp = TxResponse { accepted: true, message: String::from_str("TX enviada al mempool"), tx_hash: Some(tx_hash) };
    proof {
        assert(consensus.mempool@.pending == before.insert(tx_digest(signed), signed));
        assert(resp.tx_hash matches Some(h) && h@ == hex_encoded(blake3_digest(submission_bytes(signed))));
        assert(mldsa65_accepts(kp.public_key_spec(), submission_bytes(signed), signed.signature));
        assert(funds_of(old(consensus).state@.accounts, sender_addr@).nonce == nonce);
        assert(unsigned.receiver == receiver@);
    }
    resp
}

/// `s` starts with the protocol's reserved prefix `RedFlag_`.
pub open spec fn has_protocol_prefix(s: Seq<char>) -> bool {
    s.len() >= 8 && s.subrange(0, 8) == "RedFlag_"@
}

/// Whether `s` starts with `RedFlag_`.
pub fn protocol_prefixed(s: &str) -> (r: bool)
    ensures
        r == has_protocol_prefix(s@),
{
    let prefix = "RedFlag_";
    proof {
        reveal_strlit("RedFlag_");
    }
    let n = s.unicode_len();
    if n < 8 {
        return false;
    }
    let head = s.substring_char(0, 8);
    let mut i: usize = 0;
    while i < 8
        invariant
            i <= 8,
            head@.len() == 8,
            prefix@.len() == 8,
            head@ == s@.subrange(0, 8),
            prefix@ == "RedFlag_"@,
            forall|j: int| 0 <= j < i ==> head@[j] == prefix@[j],
        decreases 8 - i,
    {
        if head.get_char(i) != prefix.get_char(i) {
            assert(head@[i as int] != prefix@[i as int]);
            assert(head@ != prefix@);
            return false;
        }
        i = i + 1;
    }
    assert(head@ =~= prefix@);
    true
}

/// Why the faucet refused.
#[derive(Debug)]
pub enum FaucetRefusal {
    /// The address was paid less than a cooldown ago; minutes left.
    Cooldown { wait_mins: u64 },
    InvalidAddress,
    ForbiddenAddress,
    FaucetEmpty,
    /// The faucet holds less than the payment and its fee.
    InsufficientFaucet { balance: u64 },
}

/// Text of a faucet refusal.
pub open spec fn faucet_refusal_text(e: FaucetRefusal) -> Seq<char> {
    match e {
        FaucetRefusal::Cooldown { wait_mins } => "Faucet: espera "@ + decimal((wait_mins / 60) as nat) + " horas "@
            + decimal((wait_mins % 60) as nat) + " min antes de volver a pedir."@,
        FaucetRefusal::InvalidAddress => "Dirección RF inválida (debe ser clave pública ML-DSA hex)"@,
        FaucetRefusal::ForbiddenAddress => "Dirección no permitida"@,
        FaucetRefusal::FaucetEmpty => "Faucet vacío"@,
        FaucetRefusal::InsufficientFaucet { balance } => "Faucet solo tiene "@ + decimal(balance as nat) + " RF"@,
    }
}

impl FaucetRefusal {
    /// Text of the refusal.
    pub fn message(&self) -> (s: String)
        ensures
            s@ == faucet_refusal_text(*self),
    {
        match self {
            FaucetRefusal::Cooldown { wait_mins } => {
                let mut m = String::from_str("Faucet: espera ");
                let h = decimal_text(*wait_mins / 60);
                m.append(h.as_str());
                m.append(" horas ");
                let mm = decimal_text(*wait_mins % 60);
                m.append(mm.as_str());
                m.append(" min antes de volver a pedir.");
                m
            },
            FaucetRefusal::InvalidAddress => String::from_str("Dirección RF inválida (debe ser clave pública ML-DSA hex)"),
            FaucetRefusal::ForbiddenAddress => String::from_str("Dirección no permitida"),
            FaucetRefusal::FaucetEmpty => String::from_str("Faucet vacío"),
            FaucetRefusal::InsufficientFaucet { balance } => {
                let mut m = String::from_str("Faucet solo tiene ");
                let b = decimal_text(*balance);
                m.append(b.as_str());
                m.append(" RF");
                m
            },
        }
    }
}

/// Seconds since `last`, 0 for a time before it.
pub open spec fn elapsed_since(now: u64, last: u64) -> u64 {
    if now >= last { (now - last) as u64 } else { 0 }
}

/// The faucet payment asked for, defaulted and capped.
pub open spec fn faucet_amount(requested: Option<u64>) -> u64 {
    let a = match requested { Some(v) => v, None => DEFAULT_FAUCET };
    if a < MAX_FAUCET { a } else { MAX_FAUCET }
}

/// What the faucet refuses for these inputs, if anything, in the order it
/// checks: cooldown, address, reserved prefix, empty faucet, short faucet.
pub open spec fn faucet_refusal(v: LedgerView, faucet_address: Seq<char>, last_use: Option<u64>, address: Seq<char>, requested: Option<u64>, now: u64) -> Option<FaucetRefusal> {
    let bal = funds_of(v.accounts, faucet_address).balance;
    let amount = faucet_amount(requested);
    if last_use matches Some(l) && elapsed_since(now, l) < FAUCET_COOLDOWN_SECS {
        Some(FaucetRefusal::Cooldown { wait_mins: ((FAUCET_COOLDOWN_SECS - elapsed_since(now, last_use->0)) / 60) as u64 })
    } else if address.len() < 64 || hex_decoded(address) is None {
        Some(FaucetRefusal::InvalidAddress)
    } else if has_protocol_prefix(address) {
        Some(FaucetRefusal::ForbiddenAddress)
    } else if bal < MIN_FEE + 1 {
        Some(FaucetRefusal::FaucetEmpty)
    } else if bal < amount + MIN_FEE {
        Some(FaucetRefusal::InsufficientFaucet { balance: bal })
    } else {
        None
    }
}

/// Pays `address` from the faucet (at most `MAX_FAUCET`, `DEFAULT_FAUCET`
/// when no amount is asked for) unless it was paid within the cooldown,
/// is not a hex public key, is reserved, or the faucet is short. The
/// payment is a transfer signed with `faucet_key` and submitted to the
/// mempool; the amount and the submission's answer come back.
pub fn wallet_faucet(
    consensus: &mut ConsensusEngine,
    faucet_key: &SigningKeyPair,
    faucet_address: &str,
    last_use: Option<u64>,
    address: &str,
    requested: Option<u64>,
    now: u64,
) -> (r: Result<(u64, TxResponse), FaucetRefusal>)
    requires
        old(consensus).wf(),
        faucet_key.wf(),
    ensures
        final(consensus).wf(),
        faucet_refusal(old(consensus).state@, faucet_address@, last_use, address@, requested, now) matches Some(e) ==> r == Err::<(u64, TxResponse), FaucetRefusal>(e) && *final(consensus) == *old(consensus),
        faucet_refusal(old(consensus).state@, faucet_address@, last_use, address@, requested, now) is None ==> (r matches Ok(p) && p.0 == faucet_amount(requested)),
        final(consensus).state == old(consensus).state,
        r matches Ok(p) && p.1.accepted ==> exists|tx: TxView| {
            &&& is_transfer(tx, faucet_address@, address@, faucet_amount(requested), MIN_FEE, funds_of(old(consensus).state@.accounts, faucet_address@).nonce)
            &&& mldsa65_accepts(faucet_key.public_key_spec(), submission_bytes(tx), tx.signature)
            &&& final(consensus).mempool@.pending == old(consensus).mempool@.pending.insert(tx_digest(tx), tx)
        },
        r matches Ok(p) && !p.1.accepted ==> final(consensus).mempool@ == old(consensus).mempool@,
{
    if let Some(last) = last_use {
        let elapsed = now.saturating_sub(last);
        if elapsed < FAUCET_COOLDOWN_SECS {
            let wait_mins = (FAUCET_COOLDOWN_SECS - elapsed) / 60;
            return Err(FaucetRefusal::Cooldown { wait_mins });
        }
    }
    if address.unicode_len() < 64 || hex_decode(address).is_none() {
        return Err(FaucetRefusal::InvalidAddress);
    }
    if protocol_prefixed(address) {
        return Err(FaucetRefusal::ForbiddenAddress);
    }
    let faucet_bal = consensus.state.get_balance(faucet_address);
    if faucet_bal < MIN_FEE + 1 {
        return Err(FaucetRefusal::FaucetEmpty);
    }
    let asked = match requested {
        Some(v) => v,
        None => DEFAULT_FAUCET,
    };
    let amount = if asked < MAX_FAUCET { asked } else { MAX_FAUCET };
    if faucet_bal < amount + MIN_FEE {
        return Err(FaucetRefusal::InsufficientFaucet { balance: faucet_bal });
    }
    let resp = sign_and_submit(faucet_key, faucet_address, address.to_owned(), amount, MIN_FEE, consensus);
    Ok((amount, resp))
}

/// Whether `given` is the text `expected`. Every byte is looked at, so the
/// time taken does not tell how long a matching prefix was.
pub fn secrets_match(given: &str, expected: &str) -> (r: bool)
    ensures
        r == (given@ == expected@),
{
    let a = given.as_bytes();
    let b = expected.as_bytes();
    proof {
        encode_utf8_decode_utf8(given@);
        encode_utf8_decode_utf8(expected@);
    }
    if a.len() != b.len() {
        return false;
    }
    let mut acc: u8 = 0;
    let mut i: usize = 0;
    while i < a.len()
        invariant
            a.len() == b.len(),
            i <= a.len(),
            (acc == 0) == (forall|j: int| 0 <= j < i ==> a@[j] == b@[j]),
        decreases a.len() - i,
    {
        let x = a[i];
        let y = b[i];
        let next = acc | (x ^ y);
        assert((next == 0) == (acc == 0 && x == y)) by (bit_vector)
            requires
                next == acc | (x ^ y),
        ;
        proof {
            if next == 0 {
                assert forall|j: int| 0 <= j < i + 1 implies a@[j] == b@[j] by {
                    if j < i {
                    }
                }
            }
        }
        acc = next;
        i = i + 1;
    }
    proof {
        if acc == 0 {
            assert(a@ =~= b@);
        }
    }
    acc == 0
}

/// `s` with every leading `RF_` removed: the token of an exchange pool id.
pub open spec fn pool_token(s: Seq<char>) -> Seq<char>
    decreases s.len(),
{
    if s.len() >= 3 && s.subrange(0, 3) == "RF_"@ {
        pool_token(s.subrange(3, s.len() as int))
    } else {
        s
    }
}

/// `pool_id` with every leading `RF_` removed.
pub fn pool_token_of(pool_id: &str) -> (r: &str)
    ensures
        r@ == pool_token(pool_id@),
{
    proof {
        reveal_strlit("RF_");
    }
    let mut rest = pool_id;
    loop
        invariant
            pool_token(rest@) == pool_token(pool_id@),
            "RF_"@ == seq!['R', 'F', '_'],
        decreases rest@.len(),
    {
        let n = rest.unicode_len();
        if n >= 3 && rest.get_char(0) == 'R' && rest.get_char(1) == 'F' && rest.get_char(2) == '_' {
            proof {
                assert(rest@.subrange(0, 3) =~= "RF_"@);
            }
            rest = rest.substring_char(3, n);
        } else {
            proof {
                if rest@.len() >= 3 && rest@.subrange(0, 3) == "RF_"@ {
                    assert(rest@[0] == rest@.subrange(0, 3)[0]);
                    assert(rest@[1] == rest@.subrange(0, 3)[1]);
                    assert(rest@[2] == rest@.subrange(0, 3)[2]);
                }
            }
            return rest;
        }
    }
}

/// Why a private key given as text was refused.
#[derive(Clone, Copy, Debug, PartialEq, Eq, Structural)]
pub enum KeyRefusal {
    /// The text is not hexadecimal.
    BadHex,
    /// The bytes are not a postcard-framed ML-DSA-65 PKCS#8 document.
    BadKey,
}

/// The PKCS#8 document of the signing key written as hex text of its
/// postcard encoding, or why there is none.
pub open spec fn key_document(text: Seq<char>) -> Result<Seq<u8>, KeyRefusal> {
    match hex_decoded(text) {
        None => Err(KeyRefusal::BadHex),
        Some(b) => match postcard_byte_string(b) {
            Some(doc) => if mldsa65_pkcs8_valid(doc) { Ok(doc) } else { Err(KeyRefusal::BadKey) },
            None => Err(KeyRefusal::BadKey),
        },
    }
}

/// The chain address of the key in `doc`: its public key in lowercase hex.
pub open spec fn address_of_document(doc: Seq<u8>) -> Seq<char> {
    hex_encoded(mldsa65_public_key(doc))
}

/// The signing key written as hex text of its postcard encoding.
pub fn signer_from_hex(text: &str) -> (r: Result<SigningKeyPair, KeyRefusal>)
    ensures
        match (r, key_document(text@)) {
            (Ok(kp), Ok(doc)) => kp.wf() && kp.document() == doc,
            (Err(e), Err(f)) => e == f,
            _ => false,
        },
{
    let bytes = match hex_decode(text) {
        Some(b) => b,
        None => return Err(KeyRefusal::BadHex),
    };
    let doc = match postcard_decode_bytes(bytes.as_slice()) {
        Some(d) => d,
        None => return Err(KeyRefusal::BadKey),
    };
    match SigningKeyPair::from_pkcs8(doc.as_slice()) {
        Ok(kp) => Ok(kp),
        Err(_) => Err(KeyRefusal::BadKey),
    }
}

/// The ledger after taking `amount` from the RF balance of `address`, down
/// to zero at most; an address without an account is left alone.
pub open spec fn rf_debited(v: LedgerView, address: Seq<char>, amount: u64) -> LedgerView {
    if v.accounts.contains_key(address) {
        let f = v.accounts[address];
        let b = if f.balance >= amount { (f.balance - amount) as u64 } else { 0u64 };
        LedgerView { accounts: v.accounts.insert(address, Funds { balance: b, nonce: f.nonce }), ..v }
    } else {
        v
    }
}

/// The ledger after adding `amount` to the RF balance of `address`,
/// saturating; an address without an account is left alone.
pub open spec fn rf_credited(v: LedgerView, address: Seq<char>, amount: u64) -> LedgerView {
    if v.accounts.contains_key(address) {
        let f = v.accounts[address];
        LedgerView { accounts: v.accounts.insert(address, Funds { balance: sat_add(f.balance, amount), nonce: f.nonce }), ..v }
    } else {
        v
    }
}

fn debit_rf(state: &mut StateDB, address: &str, amount: u64)
    requires
        old(state).wf(),
    ensures
        final(state).wf(),
        final(state)@ == rf_debited(old(state)@, address@, amount),
        final(state).dex_state() == old(state).dex_state(),
        final(state).token_state() == old(state).token_state(),
{
    if let Some(mut acc) = state.get_account(address) {
        acc.balance = acc.balance.saturating_sub(amount);
        state.save_account_pub(&acc);
    }
}

fn credit_rf(state: &mut StateDB, address: &str, amount: u64)
    requires
        old(state).wf(),
    ensures
        final(state).wf(),
        final(state)@ == rf_credited(old(state)@, address@, amount),
        final(state).dex_state() == old(state).dex_state(),
        final(state).token_state() == old(state).token_state(),
{
    if let Some(mut acc) = state.get_account(address) {
        acc.balance = acc.balance.saturating_add(amount);
        state.save_account_pub(&acc);
    }
}

/// Why a request to the exchange was refused.
#[derive(Debug)]
pub enum DexRequestError {
    /// The private key is not hexadecimal text.
    InvalidKeyHex,
    /// The private key cannot be read as a signing key.
    InvalidKey,
    /// The trader holds less RF than the swap puts in.
    InsufficientRf { balance: u64 },
    /// The provider holds less RF than the deposit puts in.
    ShortRfDeposit { balance: u64 },
    /// The account holds less of `token` than the request puts in.
    InsufficientToken { token: String, balance: u64 },
    /// A pool counter would overflow, or the position's key is taken by a
    /// position in another pool.
    Unsafe,
    /// The wrapped-token ledger refused a change.
    Token(TokenError),
    /// The exchange refused the operation.
    Dex(DexError),
}

/// Text of a refused exchange request.
pub open spec fn dex_request_text(e: DexRequestError) -> Seq<char> {
    match e {
        DexRequestError::InvalidKeyHex => "private_key_hex inválido"@,
        DexRequestError::InvalidKey => "Clave inválida"@,
        DexRequestError::InsufficientRf { balance } => "Saldo RF insuficiente: tienes "@ + decimal(balance as nat) + " RF"@,
        DexRequestError::ShortRfDeposit { balance } => "Saldo RF insuficiente: "@ + decimal(balance as nat),
        DexRequestError::InsufficientToken { token, balance } => "Saldo "@ + token@ + " insuficiente: tienes "@ + decimal(balance as nat),
        DexRequestError::Unsafe => "Operación rechazada: desbordamiento de contadores"@,
        DexRequestError::Token(e) => token_error_spec(e),
        DexRequestError::Dex(e) => dex_error_text(e),
    }
}

impl DexRequestError {
    /// Text of the refusal.
    pub fn message(&self) -> (s: String)
        ensures
            s@ == dex_request_text(*self),
    {
        match self {
            DexRequestError::InvalidKeyHex => String::from_str("private_key_hex inválido"),
            DexRequestError::InvalidKey => String::from_str("Clave inválida"),
            DexRequestError::InsufficientRf { balance } => {
                let mut m = String::from_str("Saldo RF insuficiente: tienes ");
                let b = decimal_text(*balance);
                m.append(b.as_str());
                m.append(" RF");
                m
            },
            DexRequestError::ShortRfDeposit { balance } => {
                let mut m = String::from_str("Saldo RF insuficiente: ");
                let b = decimal_text(*balance);
                m.append(b.as_str());
                m
            },
            DexRequestError::InsufficientToken { token, balance } => {
                let mut m = String::from_str("Saldo ");
                m.append(token.as_str());
                m.append(" insuficiente: tienes ");
                let b = decimal_text(*balance);
                m.append(b.as_str());
                m
            },
            DexRequestError::Unsafe => String::from_str("Operación rechazada: desbordamiento de contadores"),
            DexRequestError::Token(e) => String::from_str(token_error_text(*e)),
            DexRequestError::Dex(e) => String::from_str(e.message()),
        }
    }
}

/// Text of a refusal of the wrapped-token ledger.
pub open spec fn token_error_spec(e: TokenError) -> Seq<char> {
    match e {
        TokenError::ZeroAmount => "No se puede acreditar 0 tokens"@,
        TokenError::Overflow => "Overflow en balance"@,
        TokenError::ExceedsMaxSupply => "Excede supply máximo"@,
        TokenError::InsufficientBalance => "Saldo insuficiente"@,
        TokenError::AmountTooSmall => "Cantidad demasiado pequeña"@,
    }
}

/// Text of a refusal of the wrapped-token ledger.
pub fn token_error_text(e: TokenError) -> (s: &'static str)
    ensures
        s@ == token_error_spec(e),
{
    match e {
        TokenError::ZeroAmount => "No se puede acreditar 0 tokens",
        TokenError::Overflow => "Overflow en balance",
        TokenError::ExceedsMaxSupply => "Excede supply máximo",
        TokenError::InsufficientBalance => "Saldo insuficiente",
        TokenError::AmountTooSmall => "Cantidad demasiado pequeña",
    }
}

/// What a swap request answers.
pub struct SwapReceipt {
    pub amount_in: u64,
    pub amount_out: u64,
    pub tx_hash: String,
}

/// The direction a swap request names: `rf_to_b`, or else token B for RF.
pub open spec fn direction_of(direction: Seq<char>) -> SwapDirection {
    if direction == "rf_to_b"@ { SwapDirection::RfToB } else { SwapDirection::BToRf }
}

/// Identifier of a swap made at `now` by `trader`: `dex_`, the time in
/// decimal, `_`, and the first eight characters of the trader's address.
pub open spec fn swap_tx_hash(now: u64, trader: Seq<char>) -> Seq<char> {
    "dex_"@ + decimal(now as nat) + "_"@ + trader.take(if trader.len() < 8 { trader.len() as int } else { 8 })
}

fn swap_hash(now: u64, trader: &str) -> (h: String)
    ensures
        h@ == swap_tx_hash(now, trader@),
{
    let mut h = String::from_str("dex_");
    let d = decimal_text(now);
    h.append(d.as_str());
    h.append("_");
    let n = trader.unicode_len();
    let k = if n < 8 { n } else { 8 };
    let head = trader.substring_char(0, k);
    h.append(head);
    proof {
        assert(head@ =~= trader@.take(k as int));
    }
    h
}

/// What a swap request by `trader` does to the chain state, from `old` to
/// `new`, answering `r`: it refuses a trader short of the input and a swap
/// that would overflow a pool counter, leaving everything as it was;
/// otherwise it takes the input from the trader (RF from the ledger, token B
/// from the wrapped-token ledger), swaps, and on success pays the output
/// (token B into the token ledger, RF onto an existing account). A refused
/// swap does not give the input back.
pub open spec fn swap_request_outcome(old: StateDB, new: StateDB, trader: Seq<char>, pool_id: Seq<char>,
    dir: SwapDirection, amount_in: u64, min_out: u64, now: u64, r: Result<SwapReceipt, DexRequestError>) -> bool {
    let is_rf = dir == SwapDirection::RfToB;
    let token = pool_token(pool_id);
    let key = balance_key(trader, token);
    let t0 = old.token_state()@;
    let bal = if is_rf { funds_of(old@.accounts, trader).balance } else { balance_in(t0.balances, key) };
    if bal < amount_in {
        &&& new == old
        &&& if is_rf {
                r == Err::<SwapReceipt, DexRequestError>(DexRequestError::InsufficientRf { balance: bal })
            } else {
                r matches Err(DexRequestError::InsufficientToken { token: t, balance: b }) && t@ == token && b == bal
            }
    } else if old.dex_state().swap_overflows(pool_id, dir, amount_in, min_out) {
        new == old && r == Err::<SwapReceipt, DexRequestError>(DexRequestError::Unsafe)
    } else {
        let v1 = if is_rf { rf_debited(old@, trader, amount_in) } else { old@ };
        let t1 = if is_rf { t0 } else { after_debit(t0, trader, token, amount_in) };
        let hash = swap_tx_hash(now, trader);
        match r {
            Ok(rc) => {
                &&& new.dex_state().swap_outcome(old.dex_state(), pool_id, trader, dir, amount_in, min_out, hash, now,
                        Ok::<u64, DexError>(rc.amount_out))
                &&& rc.amount_in == amount_in
                &&& rc.tx_hash@ == hash
                &&& if is_rf {
                        new@ == v1 && new.token_state()@ == after_credit(t1, trader, token, rc.amount_out)
                    } else {
                        new@ == rf_credited(v1, trader, rc.amount_out) && new.token_state()@ == t1
                    }
            },
            Err(DexRequestError::Dex(e)) => {
                &&& new.dex_state().swap_outcome(old.dex_state(), pool_id, trader, dir, amount_in, min_out, hash, now,
                        Err::<u64, DexError>(e))
                &&& new@ == v1
                &&& new.token_state()@ == t1
            },
            Err(_) => false,
        }
    }
}

/// A swap request signed by the key written in `private_key_hex`: `amount_in`
/// of one side of `pool_id` (`rf_to_b`, or else token B for RF) for at least
/// `min_amount_out` (0 when absent) of the other, at time `now`.
pub fn dex_swap_request(
    state: &mut StateDB,
    private_key_hex: &str,
    pool_id: &str,
    direction: &str,
    amount_in: u64,
    min_amount_out: Option<u64>,
    now: u64,
) -> (r: Result<SwapReceipt, DexRequestError>)
    requires
        old(state).wf(),
    ensures
        final(state).wf(),
        match key_document(private_key_hex@) {
            Err(KeyRefusal::BadHex) => *final(state) == *old(state)
                && r == Err::<SwapReceipt, DexRequestError>(DexRequestError::InvalidKeyHex),
            Err(KeyRefusal::BadKey) => *final(state) == *old(state)
                && r == Err::<SwapReceipt, DexRequestError>(DexRequestError::InvalidKey),
            Ok(doc) => swap_request_outcome(*old(state), *final(state), address_of_document(doc), pool_id@,
                direction_of(direction@), amount_in, match min_amount_out { Some(m) => m, None => 0 }, now, r),
        },
{
    let kp = match signer_from_hex(private_key_hex) {
        Ok(k) => k,
        Err(KeyRefusal::BadHex) => return Err(DexRequestError::InvalidKeyHex),
        Err(KeyRefusal::BadKey) => return Err(DexRequestError::InvalidKey),
    };
    let pk = kp.public_key();
    let trader = hex_encode(pk.as_slice());
    let min_out = match min_amount_out {
        Some(m) => m,
        None => 0,
    };
    let tx_hash = swap_hash(now, trader.as_str());
    let token_b = pool_token_of(pool_id);
    let is_rf = direction.to_owned() == "rf_to_b".to_owned();
    let dir = if is_rf { SwapDirection::RfToB } else { SwapDirection::BToRf };
    let ghost old_state = *state;
    let ghost key = balance_key(trader@, token_b@);
    if is_rf {
        let bal = state.get_balance(trader.as_str());
        if bal < amount_in {
            return Err(DexRequestError::InsufficientRf { balance: bal });
        }
        if state.dex_swap_overflows(pool_id, dir, amount_in, min_out) {
            return Err(DexRequestError::Unsafe);
        }
        debit_rf(state, trader.as_str(), amount_in);
    } else {
        let bal_b = state.token_balance(trader.as_str(), token_b);
        if bal_b < amount_in {
            return Err(DexRequestError::InsufficientToken { token: token_b.to_owned(), balance: bal_b });
        }
        if state.dex_swap_overflows(pool_id, dir, amount_in, min_out) {
            return Err(DexRequestError::Unsafe);
        }
        match state.token_debit(trader.as_str(), token_b, amount_in) {
            Ok(_) => {},
            Err(e) => return Err(DexRequestError::Token(e)),
        }
    }
    let ghost paid = *state;
    match state.dex_swap(pool_id, trader.as_str(), dir, amount_in, min_out, tx_hash.as_str(), now) {
        Ok(amount_out) => {
            if is_rf {
                let _ = state.token_credit(trader.as_str(), token_b, amount_out);
            } else {
                credit_rf(state, trader.as_str(), amount_out);
            }
            Ok(SwapReceipt { amount_in, amount_out, tx_hash })
        },
        Err(e) => Err(DexRequestError::Dex(e)),
    }
}

/// What a deposit request by `provider` does, from `old` to `new`,
/// answering `r`: it refuses a provider short of RF or of token B, leaving
/// everything as it was; otherwise it deposits, and on success takes the RF and the token B
/// from the provider.
pub open spec fn deposit_request_outcome(old: StateDB, new: StateDB, provider: Seq<char>, pool_id: Seq<char>,
    amount_rf: u64, amount_b: u64, now: u64, r: Result<u64, DexRequestError>) -> bool {
    let token = pool_token(pool_id);
    let key = balance_key(provider, token);
    let t0 = old.token_state()@;
    let bal = funds_of(old@.accounts, provider).balance;
    let bal_b = balance_in(t0.balances, key);
    if bal < amount_rf {
        new == old && r == Err::<u64, DexRequestError>(DexRequestError::ShortRfDeposit { balance: bal })
    } else if bal_b < amount_b {
        new == old && (r matches Err(DexRequestError::InsufficientToken { token: t, balance: b }) && t@ == token && b == bal_b)
    } else {
        match r {
            Ok(lp) => {
                &&& new.dex_state().add_liquidity_outcome(old.dex_state(), pool_id, provider, amount_rf, amount_b, now, Ok::<u64, DexError>(lp))
                &&& new@ == rf_debited(old@, provider, amount_rf)
                &&& new.token_state()@ == after_debit(t0, provider, token, amount_b)
            },
            Err(DexRequestError::Dex(e)) => {
                &&& new.dex_state().add_liquidity_outcome(old.dex_state(), pool_id, provider, amount_rf, amount_b, now, Err::<u64, DexError>(e))
                &&& new@ == old@
                &&& new.token_state()@ == t0
            },
            Err(_) => false,
        }
    }
}

/// A deposit of `amount_rf` RF and `amount_b` of the pool's token into
/// `pool_id`, signed by the key written in `private_key_hex`; answers the LP
/// tokens earned.
pub fn dex_add_liquidity_request(
    state: &mut StateDB,
    private_key_hex: &str,
    pool_id: &str,
    amount_rf: u64,
    amount_b: u64,
    now: u64,
) -> (r: Result<u64, DexRequestError>)
    requires
        old(state).wf(),
    ensures
        final(state).wf(),
        match key_document(private_key_hex@) {
            Err(_) => *final(state) == *old(state) && r == Err::<u64, DexRequestError>(DexRequestError::InvalidKey),
            Ok(doc) => deposit_request_outcome(*old(state), *final(state), address_of_document(doc), pool_id@,
                amount_rf, amount_b, now, r),
        },
{
    let kp = match signer_from_hex(private_key_hex) {
        Ok(k) => k,
        Err(_) => return Err(DexRequestError::InvalidKey),
    };
    let pk = kp.public_key();
    let provider = hex_encode(pk.as_slice());
    let bal = state.get_balance(provider.as_str());
    if bal < amount_rf {
        return Err(DexRequestError::ShortRfDeposit { balance: bal });
    }
    let token_b = pool_token_of(pool_id);
    let bal_b = state.token_balance(provider.as_str(), token_b);
    if bal_b < amount_b {
        return Err(DexRequestError::InsufficientToken { token: token_b.to_owned(), balance: bal_b });
    }
    match state.dex_add_liquidity(pool_id, provider.as_str(), amount_rf, amount_b, now) {
        Ok(lp_tokens) => {
            debit_rf(state, provider.as_str(), amount_rf);
            let _ = state.token_debit(provider.as_str(), token_b, amount_b);
            Ok(lp_tokens)
        },
        Err(e) => Err(DexRequestError::Dex(e)),
    }
}

/// What a withdrawal request by `provider` does, from `old` to `new`,
/// answering `r`: it withdraws, and on success pays the RF onto the
/// provider's account and the token B into the token ledger; a refused
/// withdrawal changes nothing.
pub open spec fn withdrawal_request_outcome(old: StateDB, new: StateDB, provider: Seq<char>, pool_id: Seq<char>,
    lp_tokens: u64, now: u64, r: Result<(u64, u64), DexRequestError>) -> bool {
    let t0 = old.token_state()@;
    match r {
        Ok((out_rf, out_b)) => {
            &&& new.dex_state().remove_liquidity_outcome(old.dex_state(), pool_id, provider, lp_tokens, now,
                    Ok::<(u64, u64), DexError>((out_rf, out_b)))
            &&& new@ == rf_credited(old@, provider, out_rf)
            &&& new.token_state()@ == after_credit(t0, provider, pool_token(pool_id), out_b)
        },
        Err(DexRequestError::Dex(e)) => {
            &&& new.dex_state().remove_liquidity_outcome(old.dex_state(), pool_id, provider, lp_tokens, now,
                    Err::<(u64, u64), DexError>(e))
            &&& new@ == old@
            &&& new.token_state()@ == t0
        },
        Err(_) => false,
    }
}

/// A withdrawal of `lp_tokens` from `pool_id`, signed by the key written in
/// `private_key_hex`; answers the RF and token B paid out.
pub fn dex_remove_liquidity_request(
    state: &mut StateDB,
    private_key_hex: &str,
    pool_id: &str,
    lp_tokens: u64,
    now: u64,
) -> (r: Result<(u64, u64), DexRequestError>)
    requires
        old(state).wf(),
    ensures
        final(state).wf(),
        match key_document(private_key_hex@) {
            Err(_) => *final(state) == *old(state) && r == Err::<(u64, u64), DexRequestError>(DexRequestError::InvalidKey),
            Ok(doc) => withdrawal_request_outcome(*old(state), *final(state), address_of_document(doc), pool_id@,
                lp_tokens, now, r),
        },
{
    let kp = match signer_from_hex(private_key_hex) {
        Ok(k) => k,
        Err(_) => return Err(DexRequestError::InvalidKey),
    };
    let pk = kp.public_key();
    let provider = hex_encode(pk.as_slice());
    let token_b = pool_token_of(pool_id);
    match state.dex_remove_liquidity(pool_id, provider.as_str(), lp_tokens, now) {
        Ok((amount_rf, amount_b)) => {
            credit_rf(state, provider.as_str(), amount_rf);
            let _ = state.token_credit(provider.as_str(), token_b, amount_b);
            Ok((amount_rf, amount_b))
        },
        Err(e) => Err(DexRequestError::Dex(e)),
    }
}

/// Reserves that a swap in `dir` on `p` takes from and pays out of.
pub open spec fn swap_sides(p: LiquidityPool, dir: SwapDirection) -> (u64, u64) {
    match dir {
        SwapDirection::RfToB => (p.reserve_rf, p.reserve_b),
        SwapDirection::BToRf => (p.reserve_b, p.reserve_rf),
    }
}

/// Output and fee that a swap of `amount_in` on `pool_id` in the named
/// direction (`rf_to_b`, or else token B for RF) would give now; `None`
/// when there is no such pool.
pub fn dex_quote(state: &StateDB, pool_id: &str, direction: &str, amount_in: u64) -> (r: Option<(u64, u64)>)
    requires
        state.wf(),
        state.dex_state().pools().contains_key(pool_id@) ==> swap_defined(
            swap_sides(state.dex_state().pools()[pool_id@], direction_of(direction@)).0 as int, amount_in as int),
    ensures
        r is None <==> !state.dex_state().pools().contains_key(pool_id@),
        r matches Some(q) ==> {
            let (r_in, r_out) = swap_sides(state.dex_state().pools()[pool_id@], direction_of(direction@));
            &&& q.0 == swap_output(r_in as int, r_out as int, amount_in as int)
            &&& q.1 == swap_fee(amount_in as int)
        },
{
    let pool = match state.dex_pool(pool_id) {
        Some(p) => p,
        None => return None,
    };
    if direction.to_owned() == "rf_to_b".to_owned() {
        Some(pool.calc_swap_rf_to_b(amount_in))
    } else {
        Some(pool.calc_swap_b_to_rf(amount_in))
    }
}

/// Why a bridge mint was refused.
#[derive(Clone, Copy, Debug, PartialEq, Eq, Structural)]
pub enum MintRefusal {
    /// No mint secret is configured, or it is the development default.
    NotConfigured,
    /// The secret given is not the configured one.
    Unauthorized,
    /// More than `MAX_MINT_PER_TX` at once.
    AmountTooLarge,
    /// The destination is a reserved protocol address.
    InvalidDestination,
    /// Neither RF nor a supported wrapped token.
    UnsupportedToken,
    /// The wrapped-token ledger refused the credit.
    Token(TokenError),
}

/// Text of a refused mint.
pub open spec fn mint_refusal_text(e: MintRefusal) -> Seq<char> {
    match e {
        MintRefusal::NotConfigured => "Bridge no configurado correctamente"@,
        MintRefusal::Unauthorized => "Unauthorized"@,
        MintRefusal::AmountTooLarge => "Cantidad excede el límite máximo por mint"@,
        MintRefusal::InvalidDestination => "Destino inválido"@,
        MintRefusal::UnsupportedToken => "Token no soportado"@,
        MintRefusal::Token(e) => token_error_spec(e),
    }
}

impl MintRefusal {
    /// Text of the refusal.
    pub fn message(&self) -> (s: String)
        ensures
            s@ == mint_refusal_text(*self),
    {
        match self {
            MintRefusal::NotConfigured => String::from_str("Bridge no configurado correctamente"),
            MintRefusal::Unauthorized => String::from_str("Unauthorized"),
            MintRefusal::AmountTooLarge => String::from_str("Cantidad excede el límite máximo por mint"),
            MintRefusal::InvalidDestination => String::from_str("Destino inválido"),
            MintRefusal::UnsupportedToken => String::from_str("Token no soportado"),
            MintRefusal::Token(e) => String::from_str(token_error_text(*e)),
        }
    }
}

/// A mint secret is configured and is not the development default.
pub open spec fn mint_configured(secret: Option<Seq<char>>) -> bool {
    secret matches Some(s) && s.len() > 0 && s != "bridge_dev_secret"@
}

/// `t` is one of the wrapped tokens the chain carries.
pub open spec fn is_supported_token(t: Seq<char>) -> bool {
    exists|j: int| 0 <= j < 5 && t == #[trigger] SUPPORTED_TOKENS[j]@
}

/// The ledger after minting `amount` RF to `to`: added to an existing
/// account, saturating, or a new account holding it.
pub open spec fn rf_minted(v: LedgerView, to: Seq<char>, amount: u64) -> LedgerView {
    if v.accounts.contains_key(to) {
        rf_credited(v, to, amount)
    } else {
        LedgerView { accounts: v.accounts.insert(to, Funds { balance: amount, nonce: 0 }), ..v }
    }
}

/// Whether `token` is a supported wrapped token.
pub fn supported_token(token: &str) -> (r: bool)
    ensures
        r == is_supported_token(token@),
{
    let t = token.to_owned();
    let list = SUPPORTED_TOKENS;
    let mut j: usize = 0;
    while j < 5
        invariant
            j <= 5,
            list == SUPPORTED_TOKENS,
            t@ == token@,
            forall|i: int| 0 <= i < j ==> token@ != #[trigger] SUPPORTED_TOKENS[i]@,
        decreases 5 - j,
    {
        if t == list[j].to_owned() {
            return true;
        }
        j = j + 1;
    }
    false
}

/// What the bridge relayer's mint of `amount` of `token` to `to` does, given
/// the configured secret and the one presented, in the order the checks are
/// made: configuration, secret, amount, destination, token. RF is credited
/// on the ledger (a new account when `to` has none); a wrapped token in the
/// token ledger, answering its new balance.
pub open spec fn mint_outcome(old: StateDB, new: StateDB, configured: Option<Seq<char>>, given: Seq<char>,
    to: Seq<char>, token: Seq<char>, amount: u64, r: Result<Option<u64>, MintRefusal>) -> bool {
    let t0 = old.token_state()@;
    if !mint_configured(configured) {
        new == old && r == Err::<Option<u64>, MintRefusal>(MintRefusal::NotConfigured)
    } else if given != configured->0 {
        new == old && r == Err::<Option<u64>, MintRefusal>(MintRefusal::Unauthorized)
    } else if amount > MAX_MINT_PER_TX {
        new == old && r == Err::<Option<u64>, MintRefusal>(MintRefusal::AmountTooLarge)
    } else if has_protocol_prefix(to) {
        new == old && r == Err::<Option<u64>, MintRefusal>(MintRefusal::InvalidDestination)
    } else if token == "RF"@ {
        &&& r == Ok::<Option<u64>, MintRefusal>(None)
        &&& new@ == rf_minted(old@, to, amount)
        &&& new.dex_state() == old.dex_state()
        &&& new.token_state() == old.token_state()
    } else if !is_supported_token(token) {
        new == old && r == Err::<Option<u64>, MintRefusal>(MintRefusal::UnsupportedToken)
    } else {
        &&& new@ == old@
        &&& new.dex_state() == old.dex_state()
        &&& new.token_state()@ == after_credit(t0, to, token, amount)
        &&& r == match credit_result(t0, to, token, amount) {
                Ok(b) => Ok::<Option<u64>, MintRefusal>(Some(b)),
                Err(e) => Err::<Option<u64>, MintRefusal>(MintRefusal::Token(e)),
            }
    }
}

/// Mints what the bridge relayer asks for: `amount` of `token` (RF or a
/// wrapped token) to `to`, when `given_secret` is the configured
/// `mint_secret`; the secret is compared without stopping at the first
/// difference. Answers the new wrapped-token balance, none for RF.
pub fn bridge_mint(
    state: &mut StateDB,
    mint_secret: Option<&str>,
    given_secret: &str,
    to: &str,
    token: &str,
    amount: u64,
) -> (r: Result<Option<u64>, MintRefusal>)
    requires
        old(state).wf(),
    ensures
        final(state).wf(),
        mint_outcome(*old(state), *final(state), match mint_secret { Some(s) => Some(s@), None => None },
            given_secret@, to@, token@, amount, r),
{
    proof {
        reveal_strlit("bridge_dev_secret");
        reveal_strlit("RF");
    }
    let expected = match mint_secret {
        Some(s) => {
            if s.unicode_len() == 0 || secrets_match(s, "bridge_dev_secret") {
                return Err(MintRefusal::NotConfigured);
            }
            s
        },
        None => return Err(MintRefusal::NotConfigured),
    };
    if !secrets_match(given_secret, expected) {
        return Err(MintRefusal::Unauthorized);
    }
    if amount > MAX_MINT_PER_TX {
        return Err(MintRefusal::AmountTooLarge);
    }
    if protocol_prefixed(to) {
        return Err(MintRefusal::InvalidDestination);
    }
    if token.to_owned() == "RF".to_owned() {
        match state.get_account(to) {
            Some(mut acc) => {
                acc.balance = acc.balance.saturating_add(amount);
                state.save_account_pub(&acc);
            },
            None => {
                state.save_account_pub(&Account { address: to.to_owned(), balance: amount, nonce: 0 });
            },
        }
        return Ok(None);
    }
    if !supported_token(token) {
        return Err(MintRefusal::UnsupportedToken);
    }
    match state.token_credit(to, token, amount) {
        Ok(b) => Ok(Some(b)),
        Err(e) => Err(MintRefusal::Token(e)),
    }
}

/// The fee a wallet transfer pays: the one asked for, `MIN_FEE` when none
/// is, and never less than `MIN_FEE`.
pub open spec fn wallet_fee(fee: Option<u64>) -> u64 {
    let f = match fee { Some(f) => f, None => MIN_FEE };
    if f < MIN_FEE { MIN_FEE } else { f }
}

/// A transfer of `amount` to `receiver` signed by the key written in
/// `private_key_hex` (hex text of its postcard encoding), paying
/// `wallet_fee(fee)`: refused for a key that is not hex, one that cannot be
/// read, a zero amount and a receiver that is not a hex public key (64
/// characters or more), with the mempool untouched; otherwise signed and
/// submitted as `sign_and_submit` does, from the key's address.
pub fn wallet_send(
    consensus: &mut ConsensusEngine,
    private_key_hex: &str,
    receiver: String,
    amount: u64,
    fee: Option<u64>,
) -> (resp: TxResponse)
    requires
        old(consensus).wf(),
    ensures
        final(consensus).wf(),
        final(consensus).state == old(consensus).state,
        final(consensus).dag == old(consensus).dag,
        final(consensus).mempool@.pending_encrypted == old(consensus).mempool@.pending_encrypted,
        match key_document(private_key_hex@) {
            Err(KeyRefusal::BadHex) => !resp.accepted && resp.message@ == "private_key_hex inválido"@
                && *final(consensus) == *old(consensus),
            Err(KeyRefusal::BadKey) => !resp.accepted && resp.message@ == "Clave privada inválida"@
                && *final(consensus) == *old(consensus),
            Ok(doc) => if amount == 0 {
                !resp.accepted && resp.message@ == "amount > 0 requerido"@ && *final(consensus) == *old(consensus)
            } else if receiver@.len() < 64 || hex_decoded(receiver@) is None {
                !resp.accepted && resp.message@ == "Dirección RF inválida (debe ser clave pública ML-DSA hex)"@
                    && *final(consensus) == *old(consensus)
            } else {
                &&& resp.accepted ==> exists|tx: TxView| {
                        &&& is_transfer(tx, address_of_document(doc), receiver@, amount, wallet_fee(fee),
                                funds_of(old(consensus).state@.accounts, address_of_document(doc)).nonce)
                        &&& mldsa65_accepts(mldsa65_public_key(doc), submission_bytes(tx), tx.signature)
                        &&& final(consensus).mempool@.pending == old(consensus).mempool@.pending.insert(tx_digest(tx), tx)
                    }
                &&& !resp.accepted ==> final(consensus).mempool@ == old(consensus).mempool@
            },
        },
{
    let kp = match signer_from_hex(private_key_hex) {
        Ok(k) => k,
        Err(KeyRefusal::BadHex) => {
            return TxResponse { accepted: false, message: String::from_str("private_key_hex inválido"), tx_hash: None };
        },
        Err(KeyRefusal::BadKey) => {
            return TxResponse { accepted: false, message: String::from_str("Clave privada inválida"), tx_hash: None };
        },
    };
    if amount == 0 {
        return TxResponse { accepted: false, message: String::from_str("amount > 0 requerido"), tx_hash: None };
    }
    if receiver.as_str().unicode_len() < 64 || hex_decode(receiver.as_str()).is_none() {
        return TxResponse {
            accepted: false,
            message: String::from_str("Dirección RF inválida (debe ser clave pública ML-DSA hex)"),
            tx_hash: None,
        };
    }
    let pk = kp.public_key();
    let sender = hex_encode(pk.as_slice());
    let asked = match fee {
        Some(f) => f,
        None => MIN_FEE,
    };
    let fee_paid = if asked < MIN_FEE { MIN_FEE } else { asked };
    let ghost doc = kp.document();
    assert(sender@ == address_of_document(doc));
    assert(key_document(private_key_hex@) == Ok::<Seq<u8>, KeyRefusal>(doc));
    let ghost nonce = funds_of(consensus.state@.accounts, sender@).nonce;
    let ghost pending = consensus.mempool@.pending;
    let ghost to = receiver@;
    let resp = sign_and_submit(&kp, sender.as_str(), receiver, amount, fee_paid, consensus);
    proof {
        if resp.accepted {
            let tx = choose|tx: TxView| {
                &&& is_transfer(tx, sender@, to, amount, fee_paid, nonce)
                &&& mldsa65_accepts(kp.public_key_spec(), submission_bytes(tx), tx.signature)
                &&& consensus.mempool@.pending == pending.insert(tx_digest(tx), tx)
                &&& resp.tx_hash matches Some(h) && h@ == hex_encoded(blake3_digest(submission_bytes(tx)))
            };
            assert(is_transfer(tx, address_of_document(doc), to, amount, wallet_fee(fee), nonce));
        }
    }
    resp
}

/// Whether a submitted transaction is taken into the mempool: it names this
/// chain, pays at least `MIN_FEE`, and its signature verifies under the
/// sender's address read as hex over its submission bytes.
pub open spec fn submission_accepted(tx: TxView) -> bool {
    &&& tx.chain_id == CHAIN_ID
    &&& tx.fee >= MIN_FEE
    &&& mldsa65_accepts(signer_key(tx), submission_bytes(tx), tx.signature)
}

/// Takes a signed transaction from a client into the mempool when
/// `submission_accepted` holds; the answer carries the hex BLAKE3 digest of
/// its submission bytes.
pub fn submit_transaction(consensus: &mut ConsensusEngine, tx: Transaction) -> (resp: TxResponse)
    requires
        old(consensus).wf(),
    ensures
        final(consensus).wf(),
        final(consensus).state == old(consensus).state,
        final(consensus).dag == old(consensus).dag,
        final(consensus).mempool@.pending_encrypted == old(consensus).mempool@.pending_encrypted,
        resp.accepted == submission_accepted(tx@),
        resp.accepted ==> final(consensus).mempool@.pending == old(consensus).mempool@.pending.insert(tx_digest(tx@), tx@),
        resp.accepted ==> (resp.tx_hash matches Some(h) && h@ == hex_encoded(blake3_digest(submission_bytes(tx@)))),
        !resp.accepted ==> *final(consensus) == *old(consensus) && resp.tx_hash is None,
        !(tx.chain_id == CHAIN_ID && tx.fee >= MIN_FEE) ==> resp.message@ == "Chain ID o Fee inválido"@,
{
    if tx.chain_id != CHAIN_ID || tx.fee < MIN_FEE {
        return TxResponse { accepted: false, message: String::from_str("Chain ID o Fee inválido"), tx_hash: None };
    }
    let pubkey = match hex_decode(tx.sender.as_str()) {
        Some(b) => b,
        None => Vec::new(),
    };
    let msg = encode_transaction_unsigned(&tx);
    match Verifier::verify(pubkey.as_slice(), msg.as_slice(), tx.signature.as_slice()) {
        Ok(()) => {},
        Err(_) => {
            return TxResponse { accepted: false, message: String::from_str("Firma inválida"), tx_hash: None };
        },
    }
    let digest = blake3_hash(msg.as_slice());
    let tx_hash = hex_encode(&digest);
    consensus.mempool.add_transaction(tx);
    TxResponse { accepted: true, message: String::from_str("TX aceptada"), tx_hash: Some(tx_hash) }
}

/// The submission bytes of `tx`: it with an empty signature, integers in
/// seven-bit groups.
fn encode_transaction_unsigned(tx: &Transaction) -> (r: Vec<u8>)
    ensures
        r@ == submission_bytes(tx@),
{
    let mut out: Vec<u8> = Vec::new();
    push_str(&mut out, tx.sender.as_str(), IntCoding::Leb128);
    push_str(&mut out, tx.receiver.as_str(), IntCoding::Leb128);
    push_u64(&mut out, tx.amount, IntCoding::Leb128);
    push_u64(&mut out, tx.fee, IntCoding::Leb128);
    push_u64(&mut out, tx.nonce, IntCoding::Leb128);
    push_u64(&mut out, tx.chain_id, IntCoding::Leb128);
    push_strs(&mut out, &tx.read_set, IntCoding::Leb128);
    push_strs(&mut out, &tx.write_set, IntCoding::Leb128);
    push_bytes(&mut out, tx.data.as_slice(), IntCoding::Leb128);
    let empty: Vec<u8> = Vec::new();
    push_bytes(&mut out, empty.as_slice(), IntCoding::Leb128);
    push_u64(&mut out, tx.timestamp, IntCoding::Leb128);
    proof {
        assert(empty@ =~= Seq::<u8>::empty());
        let t = TxView { signature: Seq::empty(), ..tx@ };
        assert(out@ =~= enc_tx(t, IntCoding::Leb128));
    }
    out
}

/// Why a validator application was refused.
#[derive(Clone, Copy, Debug, PartialEq, Eq, Structural)]
pub enum ApplyRefusal {
    /// The name or the address is blank.
    MissingFields,
    /// The address is not a hex ML-DSA public key of at least 64 digits.
    BadAddress,
}

impl ApplyRefusal {
    /// Text of the refusal.
    pub fn message(&self) -> (s: &'static str)
        ensures
            s@ == if *self == ApplyRefusal::MissingFields {
                "name y address son obligatorios"@
            } else {
                "address debe ser clave publica ML-DSA hex"@
            },
    {
        match self {
            ApplyRefusal::MissingFields => "name y address son obligatorios",
            ApplyRefusal::BadAddress => "address debe ser clave publica ML-DSA hex",
        }
    }
}

/// An accepted validator application.
pub struct ValidatorApplication {
    pub name: String,
    pub address: String,
    /// The applicant proved it holds the address's key.
    pub verified: bool,
}

impl ValidatorApplication {
    /// Review status of the application.
    pub fn status(&self) -> (s: &'static str)
        ensures
            s@ == if self.verified { "pending_verified"@ } else { "pending_unverified"@ },
    {
        if self.verified { "pending_verified" } else { "pending_unverified" }
    }
}

/// The message an applicant signs: its trimmed name, `:`, its trimmed address.
pub open spec fn application_message(name: Seq<char>, address: Seq<char>) -> Seq<char> {
    trimmed(name) + ":"@ + trimmed(address)
}

/// Hex text decoded, nothing when it is not hex.
pub open spec fn hex_or_empty(s: Seq<char>) -> Seq<u8> {
    match hex_decoded(s) { Some(b) => b, None => Seq::empty() }
}

/// Checks an application to become a validator: the name and the address
/// must not be blank, and the address must be hex text of at least 64
/// digits. It is verified when a signature is given (as hex) and it
/// verifies, under the address read as a public key, over the application
/// message's UTF-8 bytes.
pub fn validator_application(name: &str, address: &str, signature_hex: Option<&str>) -> (r: Result<ValidatorApplication, ApplyRefusal>)
    ensures
        (trimmed(name@).len() == 0 || trimmed(address@).len() == 0) ==> r == Err::<ValidatorApplication, ApplyRefusal>(ApplyRefusal::MissingFields),
        (trimmed(name@).len() > 0 && trimmed(address@).len() > 0 && (address@.len() < 64 || hex_decoded(address@) is None))
            ==> r == Err::<ValidatorApplication, ApplyRefusal>(ApplyRefusal::BadAddress),
        r matches Ok(app) ==> {
            &&& trimmed(name@).len() > 0 && trimmed(address@).len() > 0
            &&& address@.len() >= 64 && hex_decoded(address@) is Some
            &&& app.name@ == trimmed(name@)
            &&& app.address@ == trimmed(address@)
            &&& app.verified == match signature_hex {
                    Some(sig) => mldsa65_accepts(hex_or_empty(address@), encode_utf8(application_message(name@, address@)), hex_or_empty(sig@)),
                    None => false,
                }
        },
        (trimmed(name@).len() > 0 && trimmed(address@).len() > 0 && address@.len() >= 64 && hex_decoded(address@) is Some)
            ==> r is Ok,
{
    let name_t = trim(name);
    let address_t = trim(address);
    if name_t.unicode_len() == 0 || address_t.unicode_len() == 0 {
        return Err(ApplyRefusal::MissingFields);
    }
    let pubkey = match hex_decode(address) {
        Some(b) => b,
        None => return Err(ApplyRefusal::BadAddress),
    };
    if address.unicode_len() < 64 {
        return Err(ApplyRefusal::BadAddress);
    }
    let verified = match signature_hex {
        Some(sig_hex) => {
            let sig = match hex_decode(sig_hex) {
                Some(b) => b,
                None => Vec::new(),
            };
            let mut msg = name_t.to_owned();
            msg.append(":");
            msg.append(address_t);
            let bytes = msg.as_str().as_bytes();
            proof {
                reveal_strlit(":");
            }
            Verifier::verify(pubkey.as_slice(), bytes, sig.as_slice()).is_ok()
        },
        None => false,
    };
    Ok(ValidatorApplication { name: name_t.to_owned(), address: address_t.to_owned(), verified })
}

/// Takes an encrypted transaction from a client into the mempool when it
/// names this chain and pays at least `MIN_FEE`.
pub fn submit_encrypted_transaction(consensus: &mut ConsensusEngine, etx: EncryptedTransaction) -> (resp: TxResponse)
    requires
        old(consensus).wf(),
    ensures
        final(consensus).wf(),
        resp.accepted == (etx.chain_id == CHAIN_ID && etx.fee >= MIN_FEE),
        resp.tx_hash is None,
        resp.accepted ==> final(consensus).mempool@.pending_encrypted
            == old(consensus).mempool@.pending_encrypted.insert(etx_digest(etx@), etx@)
            && final(consensus).mempool@.pending == old(consensus).mempool@.pending
            && final(consensus).state == old(consensus).state
            && final(consensus).dag == old(consensus).dag,
        !resp.accepted ==> *final(consensus) == *old(consensus),
{
    if etx.chain_id != CHAIN_ID || etx.fee < MIN_FEE {
        return TxResponse { accepted: false, message: String::from_str("Invalid chain/fee"), tx_hash: None };
    }
    consensus.mempool.add_encrypted_transaction(etx);
    TxResponse { accepted: true, message: String::from_str("Encrypted TX accepted"), tx_hash: None }
}

/// A new wallet: its address and its private key written for requests (hex
/// of the key's postcard encoding).
pub struct WalletKeys {
    pub address: String,
    pub private_key_hex: String,
}

/// A fresh wallet. The private key text is the hex of the PKCS#8 document
/// framed as a postcard byte string (its length in seven-bit groups, then
/// the bytes); the address is the hex public key.
pub fn wallet_new() -> (r: Result<WalletKeys, CryptoError>)
    ensures
        r matches Ok(w) ==> exists|doc: Seq<u8>| {
            &&& #[trigger] mldsa65_pkcs8_valid(doc)
            &&& w.address@ == address_of_document(doc)
            &&& w.private_key_hex@ == hex_encoded(enc_bytes(doc, IntCoding::Leb128))
        },
        r is Err ==> r == Err::<WalletKeys, CryptoError>(CryptoError::KeyGenError),
{
    let kp = SigningKeyPair::generate()?;
    let pk = kp.public_key();
    let address = hex_encode(pk.as_slice());
    let doc = kp.to_pkcs8();
    let mut framed: Vec<u8> = Vec::new();
    push_bytes(&mut framed, doc.as_slice(), IntCoding::Leb128);
    let private_key_hex = hex_encode(framed.as_slice());
    assert(mldsa65_pkcs8_valid(kp.document()));
    Ok(WalletKeys { address, private_key_hex })
}

} // verus!
