//! Verified core of the RedFlag chain: transactions and their scheduling,
//! the native ledger, the constant-product exchange, wrapped tokens, staking,
//! governance, the price oracle, threshold-encrypted mempool keys, secret
//! sharing, gas accounting and the bridge relayer's decisions.

pub mod strmap;
pub mod text;
pub mod outside;
pub mod chain;
pub mod codec;
pub mod dex;
pub mod tokens;
pub mod staking;
pub mod governance;
pub mod oracle;
pub mod crypto;
pub mod ledger;
pub mod shamir;
pub mod gf256;
pub mod interpolation;
pub mod threshold;
pub mod consensus;
pub mod commits;
pub mod ring;
pub mod stealth;
pub mod gas_costs;
pub mod vm;
pub mod bridge;
pub mod node;
pub mod sync;
pub mod handshake;
pub mod explorer;
pub mod api;
pub mod rounds;
