//! Incremental, content-addressed memory snapshots: a region is split into
//! fixed-size chunks, each chunk is hashed, and a deduplicating block store
//! with reference counting writes every distinct payload to the output
//! stream (raw or LZ4-compressed) exactly once, while per-generation
//! manifests record, in offset order, the digests from which each capture
//! can be rebuilt.

use vstd::prelude::*;

pub mod chunk;
pub mod digest;
pub mod full;
pub mod parse;
pub mod sink;
pub mod store;
mod table;

pub use chunk::chunk_bounds;
pub use full::dump_full;
pub use parse::parse_size;
pub use sink::Sink;
pub use sink::StreamError;
pub use store::Incremental;

verus! {

/// Largest number of bytes in one chunk of a capture.
pub const MAX_CHUNK_LEN: usize = 65536;

} // verus!
