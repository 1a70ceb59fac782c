//! Wire-protocol core of a Redis-compatible server: the RESP (REdis
//! Serialization Protocol) value model, a streaming decoder, an encoder,
//! the per-connection buffering state machine that drives them, and the
//! laws that tie decoder and encoder together.

pub mod buf;
pub mod codec;
pub mod connection;
pub mod decode;
pub mod encode;
pub mod laws;
pub mod num;
pub mod server;
pub mod value;
