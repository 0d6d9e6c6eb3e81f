//! A content-addressable blob store layered on a hosted "release asset" API.
//!
//! Files larger than any single asset may hold are split into fixed-size
//! chunks, deduplicated by content hash, and later reassembled in order from
//! an opaque locator.  The pure core — wire format, chunking, hashing names,
//! URL normalization and the release-resolution state machine — lives here;
//! the HTTP transport drives it from outside.

pub mod codec;
pub mod errors;
pub mod resolver;
pub mod store;
pub mod text;
pub mod urlnorm;
