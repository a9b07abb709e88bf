//! An embedded, log-structured key-value store.
//!
//! Mutations are appended as binary records to numbered segments, an index
//! maps every live key to the location of its latest record, and compaction
//! rewrites the live pairs into a fresh segment once enough space is
//! reclaimable. The engine works on the bytes of the segments; moving those
//! bytes to and from files is left to the caller.

pub mod codec;
pub mod replay;
pub mod store;
pub mod protocol;
