//! A versioned, authenticated key-value store whose Merkle tree is partitioned
//! into independent shards.
//!
//! Every shard owns a copy-on-write binary Merkle tree over the keys routed to
//! it. The shard roots of one version are combined by a small fixed-depth tree
//! into one global root hash, and every lookup can be answered together with a
//! proof that recomputes that global root.
//!
//! The modules, leaves first:
//!
//! - [`hash`]: hash values, the hash function, the encodings of leaves and
//!   branches that are hashed.
//! - [`partition`]: the mapping from keys to shards.
//! - [`tree`]: a shard tree as a mathematical value; its canonical shape, its
//!   hash, and the walk towards a key.
//! - [`updates`]: batches of updates and what they do to the bindings of a
//!   shard.
//! - [`node`], [`merklize`], [`shard`]: the stored nodes of a shard, the merge
//!   of a batch into its tree, and its roots version by version.
//! - [`top_level`]: the tree over the shard roots.
//! - [`merkle_proof`]: proofs and their verification.
//! - [`value_store`]: the raw value store.
//! - [`cache`]: the node cache.
//! - [`codec`]: the layout of nodes and value records in durable storage.
//! - [`snapshot`], [`store`]: what the store holds at one version, and the
//!   store with its commit coordinator.
//! - [`laws`]: what holds of the store across commits.
//! - [`workload`]: what a driver of the store needs around it.

pub mod cache;
pub mod codec;
pub mod error;
pub mod hash;
pub mod laws;
pub mod merkle_proof;
pub mod merklize;
pub mod node;
pub mod partition;
pub mod shard;
pub mod snapshot;
pub mod store;
pub mod top_level;
pub mod tree;
pub mod updates;
pub mod value_store;
pub mod workload;
