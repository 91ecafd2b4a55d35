//! Transactional out-of-process index writer.
//!
//! Many concurrent client connections mutate a shared, disk-resident
//! full-text search index while keeping the all-or-nothing commit/abort
//! semantics of the enclosing host-database transaction.  All
//! index-mutating work funnels through a single writer server; clients
//! talk to it with point requests or stream bulk work over a transfer
//! channel.  A per-connection lifecycle cache reconciles pending index
//! create/drop operations with the host transaction's commit and abort
//! events.

pub mod client;
pub mod codec;
pub mod directory;
pub mod gucs;
pub mod index;
pub mod lifecycle;
pub mod mvcc;
pub mod request;
pub mod resources;
pub mod server;
pub mod transfer;
