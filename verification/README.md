# znx

A proof-of-work blockchain with unspent transaction outputs: the rules of the chain, its storage,
pool and node logic, a wallet, an encrypted keystore and the logic of a custody service. The
library under `src/` is written in Verus; each function states what it returns in its contract,
and Verus proves it.

## Layout

- `src/bytes.rs`, `encoding.rs`, `text.rs`, `collections.rs`: numbers as bytes, the canonical binary
  encoding, decimal and hexadecimal text, maps kept in vectors.
- `src/crypto.rs`, `types.rs`, `codec.rs`: keys, addresses and signatures; transactions, headers and
  blocks; their encodings, ids and Merkle roots.
- `src/consensus.rs`: targets, retargeting, work and the subsidy.
- `src/state.rs`, `kv.rs`, `storage.rs`, `listing.rs`, `integrity.rs`: what a transaction does to the
  set of unspent outputs, the key-value store, the ledger that is kept in it, and whether it is a
  chain.
- `src/chain.rs`, `history.rs`, `supply.rs`: when a block is valid, adopting and undoing blocks,
  reorganisations, and what holds of every chain that results.
- `src/mempool.rs`, `node.rs`, `sync.rs`, `p2p.rs`, `genesis.rs`, `rpc.rs`: the pool, mining,
  synchronisation, peers and messages, the genesis file, the node's interface.
- `src/wallet.rs`, `keystore.rs`, `custody.rs`: building transfers, secrets under a password,
  withdrawals and sweeps.
- `src/messages.rs`: the text of the errors.
- `tests/`: tests on concrete values.
- `app/`: the programs around the library (`node`, `wallet`, `custody`, `devnet`): files, network,
  the RocksDB database and the command line.

## What is trusted

Functions marked `external_body` and `assume_specification` stand for calls into other crates: the
hash function, Ed25519, Bech32, Borsh's primitive encodings and error texts, big integers, hexadecimal, multiaddresses,
RFC 3339 dates, Argon2id and XChaCha20-Poly1305. Their doc comments say what is believed of each.
The trait `KvStore` states what is believed of a database; `MemoryKv` is an implementation that is
proved to keep to it.
