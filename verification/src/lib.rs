//! A hierarchical, authenticated key-value store. Data lives under a *path*,
//! a sequence of byte strings that names nested subtrees, and a key in the
//! subtree at that path. A subtree's entries lie in one flat key space under
//! the subtree's *prefix*, the hash of its path; a tree element in the parent
//! holds the subtree's root hash, so the root hash of the top-level subtree
//! stands for the whole grove.
//!
//! - [`bytes`], [`keyspace`], [`storage`]: byte strings in key order, one
//!   ordered key space, and the four key spaces of the backend with
//!   transactions over them.
//! - [`context`], [`rocksdb_storage`]: the backend under one prefix, in a
//!   transaction and directly, with a cursor that stays inside the prefix's
//!   range, with atomic batches, and with the options the backend takes.
//! - [`hash`], [`path`], [`element`]: the hash, the prefix of a path, and the
//!   stored form of elements.
//! - [`subtree`]: root hashes, the persisted root state and the handle cache.
//! - [`grove`], [`operations`]: the coordinator: insert, get, delete with
//!   all that lies below, auxiliary data, in a transaction or without one.
//! - [`model`]: what the operations mean. [`laws`], [`consistency`],
//!   [`determinism`], [`reach`], [`reads`], [`runs`]: what is proved of them.
//!   [`universe`]: the test, for given paths, of what the laws ask of them.
pub mod bytes;
pub mod consistency;
pub mod context;
pub mod determinism;
pub mod element;
pub mod error;
pub mod grove;
pub mod hash;
pub mod keyspace;
pub mod laws;
pub mod model;
pub mod operations;
pub mod path;
pub mod reach;
pub mod reads;
pub mod rocksdb_storage;
pub mod runs;
pub mod storage;
pub mod subtree;
pub mod universe;

pub use bytes::make_prefixed_key;
pub use context::{PrefixedRawIterator, PrefixedRocksDbTransactionContext};
pub use element::Element;
pub use error::Error;
pub use grove::GroveDb;
pub use rocksdb_storage::{
    column_families, default_db_opts, PrefixedRocksDbBatch, PrefixedRocksDbStorage,
    PrefixedRocksDbStorageError,
};
pub use storage::{Storage, Transaction};
