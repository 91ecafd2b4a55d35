//! Identity of one search index.

use vstd::prelude::*;

verus! {

/// Stable identity and on-disk location of one search index: the host
/// database, the index relation, and the on-disk relation generation.
/// Immutable once constructed; used as the map key everywhere.
#[derive(Clone, Copy, Debug, PartialEq, Eq, Hash, Structural)]
pub struct WriterDirectory {
    pub database_oid: u32,
    pub index_oid: u32,
    pub relfilenode: u32,
}

impl WriterDirectory {
    pub fn new(database_oid: u32, index_oid: u32, relfilenode: u32) -> (d: WriterDirectory)
        ensures
            d.database_oid == database_oid,
            d.index_oid == index_oid,
            d.relfilenode == relfilenode,
    {
        WriterDirectory { database_oid, index_oid, relfilenode }
    }
}

} // verus!
