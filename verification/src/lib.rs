//! A minimal request-header parser and bounded-buffer reassembler for a
//! simplified HTTP/1.0-style text protocol, working directly on raw bytes.
//!
//! The crate provides:
//! - a byte-substring scanner locating line and header terminators,
//! - decoders for the request line and for individual header fields,
//! - a classifier mapping header names to a closed set plus an open fallback,
//! - an assembler driving the decoders across a whole header block, and
//! - a bounded-buffer reader that accumulates transport bytes until the
//!   header terminator appears or the buffer is exhausted.

pub mod assemble;
pub mod errors;
pub mod laws;
pub mod parse;
pub mod reader;
pub mod scan;
pub mod types;
