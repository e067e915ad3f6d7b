//! An in-memory ordered key-value store: a binary search tree map and a B-tree,
//! the request protocol that a server speaks over them, the requests of the
//! benchmark client, the errors of running the server as a child process, and
//! the checksums that sign a saved benchmark result.

pub mod key;
pub mod btree;
pub mod tree;
pub mod text;
pub mod server;
pub mod bench;
pub mod process_handle;
pub mod bench_saver;

pub use tree::TreeMap;
