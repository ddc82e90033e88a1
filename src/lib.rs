//! Verified core of an EVM-compatible state and indexing subsystem: typed
//! column storage, world state with trie roots, the transaction queue, block
//! persistence with reorganisation, logs blooms and the oracle price indexer.
pub mod aggregate;
pub mod block_store;
pub mod bloom;
pub mod columns;
pub mod digest;
pub mod finalize;
pub mod handler;
pub mod hex;
pub mod interval;
pub mod model;
pub mod oracle;
pub mod oracle_data;
pub mod price;
pub mod queue;
pub mod state;
pub mod table;
pub mod tracer;
pub mod trie;
pub mod u256;
