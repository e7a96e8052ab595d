//! A sharded, capacity-bounded key/value cache with LRU and clock eviction,
//! and a writer for immutable, key-ordered bulk files.

pub mod error;
pub mod sum;
pub mod bytes;
pub mod shard;
pub mod cache;
pub mod sst_file_writer;

pub use cache::{Cache, CacheBuilder, Priority};
pub use error::Error;
pub use sst_file_writer::{ExternalSstFileInfo, SstFileWriter, SstFileWriterBuilder, WriterState};
