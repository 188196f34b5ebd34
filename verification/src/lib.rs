//! An in-memory key-value store speaking a subset of the RESP wire format.
//!
//! The crate contains the connection pipeline of a small RESP server: the
//! frame parser, the reply serializer, the keyspace with millisecond
//! expiration, and the per-connection command processor with MULTI/EXEC
//! transaction queueing.  All time-dependent behaviour takes the current
//! monotonic time as an explicit argument, so every function here is a
//! function of its inputs alone.

pub mod bytes;
pub mod num;
pub mod kv_store;
pub mod laws;
pub mod protocol;
pub mod resp;
