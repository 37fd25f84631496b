//! A log-structured key-value store on byte buffers: sorted tables, a
//! write-ahead log, an in-memory table and the tree that binds them.

pub mod format;
pub mod sstable;
pub mod table_laws;
pub mod keys;
pub mod memtable;
pub mod manifest;
pub mod lsmtree;
pub mod wal;
pub mod store;
