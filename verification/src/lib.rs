//! Cap'n Proto support code: little-endian word encoding and validation
//! helpers for message framing, and a segment pool that decides which freed
//! segments are kept for reuse.

pub mod simd;
pub mod memory;
