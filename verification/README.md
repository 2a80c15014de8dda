# redflag

A post-quantum Layer-1 node (ML-DSA-65 signatures, ML-KEM-768 key exchange,
a Bullshark-style DAG, a constant-product exchange and an EVM bridge relayer)
whose core is verified with Verus.

## Layout

- `src/` — the verified library. Every executable function carries a
  `requires`/`ensures` contract proved by Verus; calls into outside crates
  go through the trusted items of `src/outside.rs`, each with a doc comment
  that says what its contract claims of the outside function.
  - `chain`, `codec`: transactions, their signing bytes and wire encodings,
    conflict detection and parallel scheduling.
  - `ledger`, `tokens`, `dex`, `staking`, `governance`, `oracle`: the chain
    state — native balances and nonces, wrapped tokens, the AMM pools and LP
    positions, stakes and fee distribution, proposals and votes, price feeds.
  - `crypto`, `threshold`, `shamir`, `gf256`, `interpolation`, `ring`,
    `stealth`, `handshake`: signing keys, the threshold-encrypted mempool,
    secret sharing over GF(2^8) with the proof that any threshold of shares
    recovers the secret, ring signatures, stealth payments and the hybrid
    X25519 + ML-KEM handshake.
  - `consensus`, `commits`, `rounds`, `sync`: the DAG, the mempool, the engine that
    commits the vertices certified by two thirds of the validators with
    their causal history (and what that commit order yields), one tick of
    the round loop, and the answers to
    peers' synchronisation requests.
  - `vm`, `gas_costs`: the contract execution context (gas, storage keys,
    logs) and gas accounting.
  - `node`, `api`, `explorer`: what the HTTP API decides and answers.
  - `bridge`: the relayer's decisions (what to mint, reject or release,
    backoff, approval threshold, mint mode).
  - `strmap`, `text`: the keyed store behind the state and text helpers.
- `tests/` — tests run against the compiled library.
- `app/` — the program around the library: the command line (node,
  contracts, bridge relayer and the wallet commands that talk to a node),
  the node's round loop and HTTP server, disk persistence, the WASM host
  functions that run the contract work committed transactions ask for, and
  the bridge relayer's HTTP client.
