//! A schema-less decoder for the Protocol Buffers binary wire format: it turns
//! a byte buffer into the ordered sequence of its fields, each a field number,
//! a wire type and a raw payload, and rejects malformed or truncated input as a
//! whole.

pub mod decoder;
pub mod error;
pub mod varint;
pub mod wire;
