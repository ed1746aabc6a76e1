//! An inspecting parser for DEFLATE streams and their gzip and zlib framings.
//!
//! The parser does not only reconstruct the plaintext: it records every
//! syntactic element of the compressed bit stream together with the bit range
//! that it occupies in the input.
use vstd::prelude::*;

pub mod canonical;
pub mod cursor;
pub mod data;
pub mod deflate;
pub mod dht;
pub mod error;
pub mod extract;
pub mod huffman;
pub mod located;
pub mod plain;
pub mod step;
pub mod stream;
pub mod text;
pub mod tokens;
pub mod window;
pub mod word;

pub use crate::stream::parse;
pub use crate::window::Window;

verus! {

/// How a stream is to be parsed.
#[derive(Clone, Copy, Debug)]
pub struct Settings {
    /// The bit position at which parsing starts.
    pub bit_offset: usize,
    /// Whether payloads, tokens and copied bytes are kept in the output.
    pub data: bool,
}

} // verus!
