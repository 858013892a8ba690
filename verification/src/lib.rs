//! An in-memory transaction pool with four subpools, per-sender nonce
//! tracking and an ordered stream of executable transactions.

pub mod attached;
pub mod best;
pub mod blobstore;
pub mod config;
pub mod error;
pub mod events;
pub mod evict;
pub mod filters;
pub mod held;
pub mod identifier;
pub mod insert;
pub mod intake;
pub mod laws;
pub mod maintain;
pub mod ordering;
pub mod pool;
pub mod primitives;
pub mod query;
pub mod state;
pub mod traits;
pub mod transaction;
pub mod txpool;
pub mod upkeep;
pub mod validate;
