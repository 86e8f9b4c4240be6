//! Streaming byte-oriented compression built around the LZW
//! adaptive-dictionary algorithm.
//!
//! The core of the crate is the verified LZW engine in [`lzw`]: an encoder
//! that turns a byte stream into a stream of fixed-width dictionary codes,
//! and a decoder that reconstructs the original bytes exactly, including the
//! classic self-referential decode case. [`shared`] holds the fixed-width
//! token reader and the error taxonomy, [`stat`] a byte-counting decorator
//! for I/O diagnostics, and [`huffman`] the beginnings of a
//! canonical-frequency-tree pathway that is not part of the supported
//! protocol.

pub mod huffman;
pub mod lzw;
pub mod shared;
pub mod stat;
