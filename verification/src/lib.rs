//! Consensus and state-machine kernel of a UTXO-based proof-of-work
//! cryptocurrency node: block and transaction data model, UTXO set and
//! mempool, block acceptance with orphan handling and longest-chain
//! reorganization, the proof-of-work miner, and the decision logic of the
//! peer-to-peer inventory and chain-sync protocol.

pub mod bytes;
pub mod crypto;
pub mod errors;
pub mod address;
pub mod wallet;
pub mod tx;
pub mod mempool;
pub mod utxo;
pub mod merkle;
pub mod block;
pub mod store;
pub mod chain;
pub mod reorg;
pub mod miner;
pub mod p2p;
pub mod jsonrep;
pub mod topics;
