//! A verified core for a small Redis-like key-value server: a codec for the
//! tag/length/CRLF-framed wire protocol, a typed command model, and an
//! in-memory store with lazy time-to-live expiration.
pub mod command;
pub mod data_type;
pub mod server;
pub mod store;
pub mod util;
