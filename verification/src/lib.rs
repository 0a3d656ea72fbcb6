//! A buffered adapter over a slow bidirectional byte resource.
//!
//! The adapter coalesces small reads and writes into two fixed-capacity
//! in-memory buffers so that the underlying resource sees few, large
//! operations.  The read side fills on demand, serves bytes from the filled
//! region and supports one byte of push-back; the write side accumulates
//! bytes, sends the buffer when it is exactly full or when an incoming write
//! would overflow it, and offers an explicit flush whose propagation to the
//! underlying resource is configurable at construction.

pub mod buffered;
pub mod laws;
pub mod memory;
pub mod model;
pub mod resource;
