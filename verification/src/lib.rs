//! Decoder for a line-delimited, length-prefixed wire format of the kind
//! used by in-memory data stores: five unit shapes (simple string, integer,
//! error, length-prefixed binary blob, and recursive array), each introduced
//! by a one-byte marker and closed by a two-byte line terminator.
//!
//! The decoding engine is a small recursive-descent parser. Its behaviour is
//! specified against the mathematical grammar in [`model`], and every
//! decoder is verified to agree with that grammar exactly: which prefix of
//! the input it consumes, which value it yields, and which structured error
//! it reports on malformed, truncated or over-nested input.

pub mod laws;
pub mod model;
pub mod parser;

pub use parser::{resp, DecodeError, Resp};
