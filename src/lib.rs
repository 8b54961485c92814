//! Streaming transcoding between a MessagePack document stream, compressed
//! with zstd, and a flat event representation of dynamic values.
pub mod event;
pub mod wire;
pub mod stream;
pub mod writer;
pub mod reader;
pub mod laws;
