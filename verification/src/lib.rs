//! In-memory write path of an LSM-style key-value storage engine: a skip-list
//! memtable keyed by internal keys, a chunked CRC-protected write-ahead-log
//! format, and the session machinery that hands out read sequence numbers.

pub mod arena;
pub mod block;
pub mod chunk;
pub mod comparator;
pub mod endian;
pub mod error;
pub mod format;
pub mod internal_key;
pub mod iter;
pub mod level_generator;
pub mod log;
pub mod memory_pool;
pub mod memtable;
pub mod node;
pub mod record;
pub mod session;
pub mod skip_list;
pub mod varint;
