//! The rules of the ZNX chain: a proof-of-work, UTXO-based ledger.
//!
//! Every module states what its functions compute in `requires` and `ensures` clauses over
//! mathematical models (sequences, maps, natural numbers) and proves it. Calls into outside
//! crates sit behind small functions marked `#[verifier::external_body]`, whose doc comments say
//! what is claimed of the call.

pub mod bytes;
pub mod chain;
pub mod codec;
pub mod collections;
pub mod consensus;
pub mod crypto;
pub mod custody;
pub mod encoding;
pub mod genesis;
pub mod history;
pub mod integrity;
pub mod keystore;
pub mod kv;
pub mod listing;
pub mod mempool;
pub mod messages;
pub mod node;
pub mod p2p;
pub mod rpc;
pub mod rules;
pub mod state;
pub mod storage;
pub mod supply;
pub mod sync;
pub mod text;
pub mod types;
pub mod wallet;
