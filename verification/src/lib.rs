//! Content-defined chunking and cross-source deduplication accounting.
//!
//! Byte streams are cut into variable-length chunks by a rolling gear hash,
//! each chunk is identified by a 64-bit content hash, and per-source
//! registries of chunks are merged into one registry that records which
//! sources share which chunks.

pub mod cdc;
pub mod chunker;
pub mod codec;
pub mod digest;
pub mod estimator;
pub mod gear;
pub mod merge;
pub mod palette;
pub mod registry;
pub mod store;

pub use cdc::Limits;
pub use chunker::Chunker;
pub use store::{Chunk, ChunkStore};
