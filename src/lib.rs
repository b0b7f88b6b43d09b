//! An embedded, encrypted, file-backed record store organised as a small
//! log-structured merge engine.
//!
//! The crate holds the engine's logic: path layout, the codec boundary, the
//! in-memory write buffer, the flush into immutable runs, the line-indexed
//! segment rewriting and the staged error mapping of every operation. The
//! file system itself is reached by the caller, who hands each operation the
//! outcome of the I/O it asked for.
pub mod codec;
pub mod disk;
pub mod err;
pub mod lines;
pub mod memtable;
pub mod path;
pub mod record;
pub mod res;
pub mod scan;
pub mod sstable;
pub mod table;
