//! An embedded key-value store made of typed trees over an in-memory ordered
//! table, kept durable by a write-ahead log, with secondary indexes,
//! aggregates and lazy schema upgrades maintained from the same change stream.
pub mod codec;
pub mod memtable;
pub mod entry;
pub mod tree;
pub mod database;
pub mod buckets;
pub mod index;
pub mod aggregate;
pub mod fs;
pub mod manifest;
pub mod builder;

pub use aggregate::AggregateTree;
pub use database::{Change, Database, Update};
pub use fs::FileSystem;
pub use index::Index;
pub use tree::Tree;
