//! Streaming binary diff and patch engine.
//!
//! The producer side scans a target byte stream against a block index built
//! from a source byte stream and emits a compact COPY/INSERT instruction
//! stream; the consumer side validates the source and reconstructs the target
//! incrementally.

pub mod applier;
pub mod block_index;
pub mod builder;
pub mod buffer;
pub mod hash;
pub mod matcher;
pub mod patch;
pub mod patch_format;
pub mod rolling_hash;
pub mod streaming_diff;
