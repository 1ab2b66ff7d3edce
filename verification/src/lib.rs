//! Core of an embedded document store: it mints time-ordered 64-bit
//! identifiers, lays documents out as one key/value row per field inside an
//! ordered keyspace, and compiles declarative requests into storage
//! operations.  The ordered key-value engine itself is an external
//! collaborator, reached through the `shard` module.

pub mod codec;
pub mod cypher;
pub mod document;
pub mod endian;
pub mod epoch;
pub mod error;
pub mod field;
pub mod id;
pub mod key;
pub mod plan;
pub mod query;
pub mod shard;
pub mod types;
pub mod util;
