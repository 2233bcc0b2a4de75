//! A segmented, block-chunked write-ahead log.
//!
//! The library holds the log's logic: the chunk wire format, how a record is
//! cut into block-aligned chunks and put back together, and how a log
//! directory picks, rotates and addresses its segment files. Reading and
//! writing the files themselves is left to the caller, who hands the library
//! plain bytes.

pub mod error;
pub mod codec;
pub mod segment;
pub mod wal;
pub mod naming;
