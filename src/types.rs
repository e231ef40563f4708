//! Plain record types shared by the stores and their callers.
use vstd::prelude::*;

verus! {

/// Magic number of the node arena.
pub const NODE_ARENA_MAGIC: u64 = 0x5345_4B45;

/// Magic number of the blob arena.
pub const BLOB_ARENA_MAGIC: u64 = 0x424C_4F42;

/// The header at the start of a slot arena file (padded to 64 bytes on disk).
#[derive(Clone, Copy, Debug, PartialEq, Eq, Structural)]
pub struct ArenaHeader {
    pub magic: u64,
    pub committed_count: u64,
    pub durable_count: u64,
    pub capacity: u64,
}

/// Which kind of secondary index a field gets.
#[derive(Clone, Copy, Debug, PartialEq, Eq, Structural)]
pub enum IndexType {
    /// Equality lookups.
    Hash,
    /// Range lookups.
    Range,
}

/// The fields of a collection that get secondary indexes, with hints for
/// vector, spatial and full-text fields.
#[derive(Clone, Debug)]
pub struct CollectionSchema {
    pub vector_fields: Vec<String>,
    pub spatial_fields: Vec<String>,
    pub fulltext_fields: Vec<String>,
    pub hash_indexed_fields: Vec<String>,
    pub range_indexed_fields: Vec<String>,
}

impl Default for CollectionSchema {
    fn default() -> (r: Self)
        ensures
            r.vector_fields@.len() == 0,
            r.spatial_fields@.len() == 0,
            r.fulltext_fields@.len() == 0,
            r.hash_indexed_fields@.len() == 0,
            r.range_indexed_fields@.len() == 0,
    {
        CollectionSchema {
            vector_fields: Vec::new(),
            spatial_fields: Vec::new(),
            fulltext_fields: Vec::new(),
            hash_indexed_fields: Vec::new(),
            range_indexed_fields: Vec::new(),
        }
    }
}

} // verus!
