# Inazuma

The verified core of a proof-of-stake blockchain node, in Verus, with the node program
around it.

- `src/` is the library. Everything the chain depends on is here with `requires` /
  `ensures` contracts: transactions and their signing bytes, blocks, fees, staking and
  leader election, finality votes, slashing, native tokens, WebAssembly contracts, the
  shielded pool, the sparse Merkle tree, the database with its journal, snapshots, pruning,
  the mempool, block production and import, and the rules of the peer, HTTP and WebSocket
  protocols, with the answer to every RPC call. Functions named `law_*` state what holds
  across calls, such as that a block adds the reward to the supply and takes away what it
  burns, nothing else, or that the state tree holds what the tables hold after every block,
  so that the proofs a node serves check against the root it announces.
- `app/` is the program: sockets, files, the terminal, the JSON forms of the library's
  types and the prover of shielded spends.
- `tests/` runs the library on concrete values, with the real outside crates.

Calls into outside crates (hashes, signatures, field arithmetic, the WebAssembly
interpreter and assembler, JSON, QR codes) go through small wrappers in `crypto`,
`transport`, `poseidon`, `shielded_circuit`, `contracts`, `json`, `text`, `chain`, `cli` and
`ui`; each says above its contract what is taken on trust.

The library holds the whole state in memory. The program reads it from a `sled` database
at start and writes what changed after every block that it sealed or imported.
