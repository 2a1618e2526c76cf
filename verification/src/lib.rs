//! Split-table storage layer for a Merkle-Patricia trie.
//!
//! Trie nodes are partitioned across two tables by path depth: a shallow
//! table for paths of at most [`constants::SHALLOW_TRIE_DEPTH`] nibbles and
//! a deep table for all longer paths, both for the account trie and for the
//! per-account storage tries.  A split read cursor presents the union of
//! the two partner tables as one logically sorted stream via a two-way
//! merge, and a write router directs each update to the one table its path
//! depth selects, with delete-then-upsert semantics.
//!
//! The storage engine under the tables is modelled in memory: each table is
//! a vector in strictly ascending key order and each engine cursor is a
//! position over it, with full contracts.  Everything above — the merge
//! state machine, the routing, the partitioning invariant and the ordering
//! of the merged stream — is verified against those contracts.

pub mod constants;
pub mod nibbles;
pub mod node;
pub mod table;
pub mod storage_table;
pub mod merge;
pub mod store;
pub mod trie_cursor;
pub mod storage_cursor;
pub mod write_routing;
