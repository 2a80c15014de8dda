//! The contract VM's own rules: gas estimation and metering, contract
//! addresses, storage keys and limits, logs, and the result of a call.
//! Running the WASM code itself is wasmi's.

use vstd::prelude::*;
use vstd::utf8::{encode_utf8, valid_utf8, decode_utf8};
use crate::consensus::{be_bytes, be_bytes_exec};
use crate::codec::{le_bytes, push_le};
use crate::gas_costs;
use crate::outside::{
    blake3_digest, blake3_hash, hex_encode, hex_encoded, utf8_text, wasm_engine_new, wasm_module_accepted,
    wasm_module_check,
};

verus! {

/// Gas that running `bytecode` with `args_len` bytes of arguments is
/// estimated to cost: the base cost, one instruction per ten bytes of code,
/// and four per byte of arguments.
pub open spec fn gas_estimate(code_len: nat, args_len: nat) -> int {
    gas_costs::BASE_TX + (code_len / 10) * gas_costs::WASM_INSTRUCTION + args_len * 4
}

/// Estimated gas of running `bytecode` with `args_len` bytes of arguments.
pub fn estimate_gas(bytecode: &[u8], args_len: usize) -> (g: u64)
    requires
        gas_estimate(bytecode@.len(), args_len as nat) <= u64::MAX,
    ensures
        g == gas_estimate(bytecode@.len(), args_len as nat),
{
    let code_cost = (bytecode.len() as u64 / 10) * gas_costs::WASM_INSTRUCTION;
    let args_cost = args_len as u64 * 4;
    gas_costs::BASE_TX + code_cost + args_cost
}

/// Gas limits by kind of operation.
pub struct GasLimits;

impl GasLimits {
    /// Most gas a contract transaction may use.
    pub const MAX_TX_GAS: u64 = 10_000_000;

    /// Most gas a deployment may use.
    pub const MAX_DEPLOY_GAS: u64 = 50_000_000;

    /// Least gas needed to call any function.
    pub const MIN_CALL_GAS: u64 = 21_000;
}

/// Why contract execution failed.
#[derive(Debug)]
pub enum VmError {
    OutOfGas { used: u64, limit: u64 },
    ContractNotFound(String),
    ExecutionError(String),
    CompileError(String),
    InvalidSignature,
    StorageOverflow,
}

/// Longest storage key a contract may write.
pub const MAX_STORAGE_KEY_LEN: usize = 256;

/// Outcome of a contract call.
pub struct ExecutionResult {
    pub success: bool,
    pub gas_used: u64,
    pub return_value: Vec<u8>,
    pub logs: Vec<String>,
    /// (key, value) pairs written, in order.
    pub storage_writes: Vec<(Vec<u8>, Vec<u8>)>,
}

/// A deployed contract.
pub struct Contract {
    /// Hex of the BLAKE3 digest of the deployer and its nonce.
    pub address: String,
    pub bytecode: Vec<u8>,
    pub deployer: String,
    pub deploy_round: u64,
    /// ML-DSA signature of the bytecode.
    pub signature: Vec<u8>,
    pub abi: ContractAbi,
}

/// A contract's interface.
pub struct ContractAbi {
    pub name: String,
    pub version: String,
    pub functions: Vec<AbiFunction>,
}

/// One function of a contract's interface.
pub struct AbiFunction {
    pub name: String,
    pub inputs: Vec<String>,
    pub outputs: Vec<String>,
    pub mutates_state: bool,
}

/// Bytes of the text `contract:`.
pub const CONTRACT_PREFIX: [u8; 9] = [0x63, 0x6f, 0x6e, 0x74, 0x72, 0x61, 0x63, 0x74, 0x3a];

/// Storage key under which `key` of the contract at `address` is kept:
/// `contract:{address}:` followed by the key.
pub open spec fn storage_key_of(address: Seq<char>, key: Seq<u8>) -> Seq<u8> {
    CONTRACT_PREFIX@ + encode_utf8(address) + seq![0x3au8] + key
}

/// What a contract call sees and accumulates: who calls, the contract,
/// the round, the gas budget and use, the logs and the storage writes.
pub struct ExecutionContext {
    pub caller: String,
    pub contract_address: String,
    pub block_round: u64,
    pub gas_limit: u64,
    pub gas_used: u64,
    pub logs: Vec<String>,
    pub storage_writes: Vec<(Vec<u8>, Vec<u8>)>,
}

fn push_all(out: &mut Vec<u8>, b: &[u8])
    ensures
        final(out)@ == old(out)@ + b@,
{
    let ghost start = out@;
    let mut i: usize = 0;
    while i < b.len()
        invariant
            i <= b.len(),
            out@ == start + b@.subrange(0, i as int),
        decreases b.len() - i,
    {
        out.push(b[i]);
        assert(out@ =~= start + b@.subrange(0, i + 1));
        i = i + 1;
    }
    assert(b@.subrange(0, b.len() as int) =~= b@);
}

impl ExecutionContext {
    /// A fresh context with no gas used, no logs and no writes.
    pub fn new(caller: String, contract_address: String, block_round: u64, gas_limit: u64) -> (c: Self)
        ensures
            c.caller == caller,
            c.contract_address == contract_address,
            c.block_round == block_round,
            c.gas_limit == gas_limit,
            c.gas_used == 0,
            c.logs@.len() == 0,
            c.storage_writes@.len() == 0,
    {
        ExecutionContext {
            caller,
            contract_address,
            block_round,
            gas_limit,
            gas_used: 0,
            logs: Vec::new(),
            storage_writes: Vec::new(),
        }
    }

    /// Charges `amount` gas (saturating); fails when the use then exceeds
    /// the limit. The charge stands either way.
    pub fn charge_gas(&mut self, amount: u64) -> (r: Result<(), VmError>)
        ensures
            final(self).gas_used == if old(self).gas_used + amount > u64::MAX { u64::MAX as int } else { old(self).gas_used + amount },
            final(self).gas_limit == old(self).gas_limit,
            final(self).caller == old(self).caller,
            final(self).contract_address == old(self).contract_address,
            final(self).block_round == old(self).block_round,
            final(self).logs == old(self).logs,
            final(self).storage_writes == old(self).storage_writes,
            r is Ok <==> final(self).gas_used <= final(self).gas_limit,
            r matches Err(e) ==> e == (VmError::OutOfGas { used: final(self).gas_used, limit: final(self).gas_limit }),
    {
        self.gas_used = self.gas_used.saturating_add(amount);
        if self.gas_used > self.gas_limit {
            Err(VmError::OutOfGas { used: self.gas_used, limit: self.gas_limit })
        } else {
            Ok(())
        }
    }

    /// The storage key of `key` for this contract.
    pub fn storage_key(&self, key: &[u8]) -> (r: Vec<u8>)
        ensures
            r@ == storage_key_of(self.contract_address@, key@),
    {
        let mut out: Vec<u8> = Vec::new();
        push_all(&mut out, &CONTRACT_PREFIX);
        push_all(&mut out, self.contract_address.as_str().as_bytes());
        out.push(0x3au8);
        push_all(&mut out, key);
        assert(out@ =~= storage_key_of(self.contract_address@, key@));
        out
    }

    /// Records the write of `value` under `key` and returns the storage key
    /// to write it to; keys longer than `MAX_STORAGE_KEY_LEN` are refused.
    pub fn storage_set(&mut self, key: Vec<u8>, value: Vec<u8>) -> (r: Result<Vec<u8>, VmError>)
        ensures
            key@.len() > MAX_STORAGE_KEY_LEN ==> r == Err::<Vec<u8>, VmError>(VmError::StorageOverflow)
                && *final(self) == *old(self),
            key@.len() <= MAX_STORAGE_KEY_LEN ==> {
                &&& r matches Ok(k) && k@ == storage_key_of(old(self).contract_address@, key@)
                &&& final(self).storage_writes@.len() == old(self).storage_writes@.len() + 1
                &&& final(self).storage_writes@.last().0@ == key@
                &&& final(self).storage_writes@.last().1@ == value@
                &&& final(self).storage_writes@.drop_last() == old(self).storage_writes@
                &&& final(self).gas_used == old(self).gas_used
                &&& final(self).logs == old(self).logs
                &&& final(self).contract_address == old(self).contract_address
            },
    {
        if key.len() > MAX_STORAGE_KEY_LEN {
            return Err(VmError::StorageOverflow);
        }
        let prefixed = self.storage_key(key.as_slice());
        self.storage_writes.push((key, value));
        Ok(prefixed)
    }

    /// Appends the log that `bytes` spell when they are UTF-8 text.
    pub fn record_log(&mut self, bytes: &[u8])
        ensures
            valid_utf8(bytes@) ==> final(self).logs@.map_values(|s: String| s@)
                == old(self).logs@.map_values(|s: String| s@).push(decode_utf8(bytes@)),
            !valid_utf8(bytes@) ==> final(self).logs == old(self).logs,
            final(self).gas_used == old(self).gas_used,
            final(self).storage_writes == old(self).storage_writes,
    {
        match utf8_text(bytes) {
            Some(text) => {
                let ghost before = self.logs@;
                self.logs.push(text);
                assert(self.logs@.map_values(|s: String| s@) =~= before.map_values(|s: String| s@).push(decode_utf8(bytes@)));
            },
            None => {},
        }
    }

    /// Gas left: the limit less the use, or 0, as a signed value.
    pub fn gas_remaining(&self) -> (r: i64)
        ensures
            r == (if self.gas_limit >= self.gas_used { (self.gas_limit - self.gas_used) as u64 } else { 0u64 }) as i64,
    {
        self.gas_limit.saturating_sub(self.gas_used) as i64
    }

    /// The round, as a signed value.
    pub fn block_round_signed(&self) -> (r: i64)
        ensures
            r == self.block_round as i64,
    {
        self.block_round as i64
    }

    /// The outcome of a call whose function returned `call_result`: the
    /// 64-bit little-endian bytes of the result widened with its sign.
    pub fn into_result(self, call_result: i32) -> (r: ExecutionResult)
        ensures
            r.success,
            r.gas_used == self.gas_used,
            r.return_value@ == le_bytes((call_result as u64) as nat, 8),
            r.logs == self.logs,
            r.storage_writes == self.storage_writes,
    {
        let mut ret: Vec<u8> = Vec::new();
        push_le(&mut ret, call_result as u64, 8);
        assert(ret@ =~= le_bytes((call_result as u64) as nat, 8));
        ExecutionResult {
            success: true,
            gas_used: self.gas_used,
            return_value: ret,
            logs: self.logs,
            storage_writes: self.storage_writes,
        }
    }
}

/// Address of the contract that `deployer` deploys with `nonce`: lowercase
/// hex of the BLAKE3 digest of the deployer's bytes and the nonce's
/// big-endian bytes.
pub open spec fn contract_address_of(deployer: Seq<char>, nonce: u64) -> Seq<char> {
    hex_encoded(blake3_digest(encode_utf8(deployer) + be_bytes(nonce)))
}

/// Address of the contract that `deployer` deploys with `nonce`.
pub fn contract_address(deployer: &str, nonce: u64) -> (r: String)
    ensures
        r@ == contract_address_of(deployer@, nonce),
{
    let mut data: Vec<u8> = Vec::new();
    push_all(&mut data, deployer.as_bytes());
    let nb = be_bytes_exec(nonce);
    push_all(&mut data, nb.as_slice());
    let h = blake3_hash(data.as_slice());
    hex_encode(&h)
}

/// Key under which a contract is stored: `contract:{address}`.
pub open spec fn contract_key_of(address: Seq<char>) -> Seq<u8> {
    CONTRACT_PREFIX@ + encode_utf8(address)
}

/// Key under which the contract at `address` is stored.
pub fn contract_key(address: &str) -> (r: Vec<u8>)
    ensures
        r@ == contract_key_of(address@),
{
    let mut out: Vec<u8> = Vec::new();
    push_all(&mut out, &CONTRACT_PREFIX);
    push_all(&mut out, address.as_bytes());
    out
}

/// The contract address that a stored key names: the text after
/// `contract:` when the key is UTF-8 text that starts with it.
pub fn address_from_key(key: &[u8]) -> (r: Option<String>)
    ensures
        r matches Some(a) ==> key@ == CONTRACT_PREFIX@ + encode_utf8(a@),
        (key@.len() >= 9 && key@.subrange(0, 9) == CONTRACT_PREFIX@ && valid_utf8(key@.subrange(9, key@.len() as int)))
            <==> r is Some,
{
    if key.len() < 9 {
        return None;
    }
    let mut i: usize = 0;
    while i < 9
        invariant
            key@.len() >= 9,
            i <= 9,
            forall|j: int| 0 <= j < i ==> key@[j] == CONTRACT_PREFIX@[j],
        decreases 9 - i,
    {
        if key[i] != CONTRACT_PREFIX[i] {
            assert(key@.subrange(0, 9)[i as int] != CONTRACT_PREFIX@[i as int]);
            return None;
        }
        i = i + 1;
    }
    assert(key@.subrange(0, 9) =~= CONTRACT_PREFIX@);
    let mut rest: Vec<u8> = Vec::new();
    let mut k: usize = 9;
    while k < key.len()
        invariant
            9 <= k <= key.len(),
            rest@ == key@.subrange(9, k as int),
        decreases key.len() - k,
    {
        rest.push(key[k]);
        assert(rest@ =~= key@.subrange(9, k + 1));
        k = k + 1;
    }
    match utf8_text(rest.as_slice()) {
        Some(a) => {
            proof {
                vstd::utf8::decode_utf8_encode_utf8(rest@);
                assert(key@ =~= key@.subrange(0, 9) + key@.subrange(9, key@.len() as int));
            }
            Some(a)
        },
        None => None,
    }
}

/// The VM: a wasmi engine with the default configuration.
pub struct ContractVm {
    pub engine: wasmi::Engine,
}

impl ContractVm {
    /// A VM with a fresh engine.
    pub fn new() -> (vm: Self) {
        ContractVm { engine: wasm_engine_new() }
    }

    /// Prepares the deployment of `bytecode` by `deployer` with `nonce` in
    /// `round`: the contract, at the address of the deployer and nonce, when
    /// wasmi accepts the bytecode; the compile error otherwise.
    pub fn deploy(
        &self,
        bytecode: Vec<u8>,
        deployer: &str,
        nonce: u64,
        round: u64,
        signature: Vec<u8>,
        abi: ContractAbi,
    ) -> (r: Result<Contract, VmError>)
        ensures
            r is Ok == wasm_module_accepted(bytecode@),
            r matches Ok(c) ==> {
                &&& c.address@ == contract_address_of(deployer@, nonce)
                &&& c.bytecode@ == bytecode@
                &&& c.deployer@ == deployer@
                &&& c.deploy_round == round
                &&& c.signature@ == signature@
            },
            r matches Err(e) ==> e is CompileError,
    {
        let address = contract_address(deployer, nonce);
        match wasm_module_check(&self.engine, bytecode.as_slice()) {
            Err(msg) => Err(VmError::CompileError(msg)),
            Ok(()) => Ok(Contract {
                address,
                bytecode,
                deployer: deployer.to_owned(),
                deploy_round: round,
                signature,
                abi,
            }),
        }
    }
}

} // verus!
