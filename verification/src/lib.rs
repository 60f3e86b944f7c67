//! A minimal peer-to-peer ledger node: an append-only chain of blocks that
//! are linked by their hashes, a proof-of-work search that mines new blocks,
//! and the rules by which a node reconciles its chain with those of its
//! peers.
//!
//! Every function carries a contract over a mathematical view of the data,
//! and the contracts are proved. What is believed without proof are three
//! calls into other crates: the SHA-256 digest, the drawing of a random
//! number, and the parallel search over a round's nonces.

pub mod attempt;
pub mod block;
pub mod blockchain;
pub mod digest;
pub mod hex;
pub mod injectivity;
pub mod json;
pub mod mining;
pub mod node;
pub mod p2p;
pub mod timestamp;
pub mod transaction;
