//! An in-memory key-value store served over a framed TCP protocol: an
//! incrementally rehashing dictionary, the wire codec, and the per-connection
//! state machine that drives them.

pub mod list;
pub mod hash_table;
pub mod dict;
pub mod protocol;
pub mod connection;
pub mod framing;
