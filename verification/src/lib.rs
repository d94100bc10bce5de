//! A minimal JSON-RPC 2.0 client core for an Ethereum-style node API.
//!
//! The crate models the request/response envelopes, encodes and decodes the
//! canonical wire form, converts hex-encoded quantities, and makes the
//! transport-level decisions (endpoint resolution, HTTP status handling,
//! connection life cycle). Actual network I/O is left to the embedding
//! program, which hands response bytes back to this crate for decoding.

pub mod envelope;
pub mod facade;
pub mod quantity;
pub mod transport;
