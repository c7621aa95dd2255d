//! A binary-safe, line-oriented framing codec for a RESP-style wire protocol.
//!
//! The decoder turns a raw byte buffer into a structured value; the encoder
//! performs the inverse. Both are specified against a single mathematical
//! model of the wire grammar, and encoding followed by decoding is proved to
//! reproduce the original value exactly.

pub mod laws;
pub mod parser;
pub mod wire;
