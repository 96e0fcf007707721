//! An embedded HTTP/1.1 server engine: incremental request parsing,
//! chunked transfer decoding, a path-routing trie and the per-connection
//! state machine that ties them together.
pub mod bytes;
pub mod chunk;
pub mod reader;
pub mod router;
pub mod status;
