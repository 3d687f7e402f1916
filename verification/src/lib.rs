//! A small persistent store for opaque, address-addressed user messages:
//! validation, per-address append-only storage, a global index of known
//! addresses, and a time-based retention sweep.

pub mod bytes;
pub mod codec;
pub mod kv;
pub mod laws;
pub mod message;
pub mod store;
