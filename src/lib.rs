//! Latency benchmark over a raw TCP socket: a length-prefixed wire codec,
//! the server's per-connection request handling and the client's incremental
//! response counting, with timing statistics.

pub mod wire;
pub mod stream;
pub mod client;
pub mod server;
pub mod stats;
