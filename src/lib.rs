//! Sekejap: an embedded multi-model store whose decision logic (slug hashing,
//! the Robin-Hood slug index, candidate-set algebra, graph traversal, the
//! write-ahead log format, the field indexes, the edge metadata slot and the
//! transaction bookkeeping) carries machine-checked contracts.
pub mod text;
pub mod txn;
pub mod mvcc;
pub mod mmap_hash;
pub mod bitmap;
pub mod graph;
pub mod collection_bitmap;
pub mod store;
pub mod pipeline;
pub mod wal;
pub mod search;
pub mod ql;
pub mod types;
pub mod range_index;
pub mod edge_meta;
pub mod hash_index;
pub mod postpass;
pub mod links;
