//! A low-memory LZ-style compression codec with a bit-packed wire format.

pub mod bit_reader;
pub mod bit_writer;
pub mod bits;
pub mod common;
pub mod compressor;
pub mod decompressor;
pub mod error;
pub mod huffman;
pub mod ring_buffer;
pub mod round_trip;
