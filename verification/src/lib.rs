//! An append-only log split into segments, with a sparse offset index.
//!
//! Each record of a segment's log file is `[offset][length][payload]`, the first two
//! as little-endian `u64`; each entry of its index file is `[offset][position]`.
pub mod record;
pub mod codec;
pub mod segment;
pub mod index;
pub mod writer;
pub mod logs;
