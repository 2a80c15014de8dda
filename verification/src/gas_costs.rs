//! Gas cost of each operation a contract can perform.

use vstd::prelude::*;

verus! {

/// Base cost of any contract transaction.
pub const BASE_TX: u64 = 21_000;

/// Cost of deploying a contract.
pub const CONTRACT_DEPLOY: u64 = 100_000;

/// Cost of writing a storage slot.
pub const SSTORE_SET: u64 = 20_000;

/// Cost of rewriting a storage slot.
pub const SSTORE_RESET: u64 = 5_000;

/// Cost of reading a storage slot.
pub const SLOAD: u64 = 800;

/// Cost of emitting a log.
pub const LOG: u64 = 375;

/// Cost of the BLAKE3 host function.
pub const BLAKE3_HASH: u64 = 600;

/// Cost of an ML-DSA verification.
pub const MLDSA_VERIFY: u64 = 50_000;

/// Cost of one WASM instruction.
pub const WASM_INSTRUCTION: u64 = 1;

} // verus!
