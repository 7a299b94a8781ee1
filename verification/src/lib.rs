//! A single-process node for a minimal proof-of-stake ledger: the chain of
//! blocks, the account balances and validator stakes, the pool of pending
//! transactions, the image of the durable store, and the gossip and RPC
//! message handling around them.

pub mod account;
pub mod block;
pub mod blockchain;
pub mod cli;
pub mod codec;
pub mod digest;
pub mod json;
pub mod keyed;
pub mod mempool;
pub mod mirror;
pub mod network;
pub mod node;
pub mod peers;
pub mod rpc;
pub mod scheduler;
pub mod storage;
pub mod tally;
pub mod text;
pub mod transaction;
