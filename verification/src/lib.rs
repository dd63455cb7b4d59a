//! A DEFLATE compressor (RFC 1951) whose output is proved to decode back to
//! its input.
//!
//! Compression runs in three stages. [`lempel_ziv`] describes the input as
//! tokens: literal bytes and copies of earlier bytes. [`block_splitter`] cuts
//! the tokens into blocks and gives each block the fixed Huffman codes of
//! the format or codes of its own, built by [`code_lengths`]. [`deflate`]
//! holds the bit emitter, [`deflate::DeflateWriter`], and the entry point
//! [`deflate::deflate`].
//!
//! What the stream must look like is laid down in [`encoding`], over the
//! canonical codes of [`huffman`], the code tables of [`tables`] and the bit
//! strings of [`bits`]. What a stream means is laid down in [`inflate`], the
//! decoder of the format written as spec functions. [`roundtrip`] proves
//! that the decoder undoes the encoding, and the contract of
//! [`deflate::deflate`] rests on it.

pub mod bits;
pub mod block_splitter;
pub mod code_lengths;
pub mod deflate;
pub mod encoding;
pub mod error;
pub mod huffman;
pub mod inflate;
pub mod lempel_ziv;
pub mod roundtrip;
pub mod tables;
