//! A chunked, parallelizable byte-stream compressor.
//!
//! The library holds the verified core: bit-level readers and writers, the
//! Delta and Huffman codecs, the length-prefixed stream framing, and the
//! round-robin dispatch bookkeeping that keeps chunks in input order.
//! Process launch, standard I/O and the message-passing fabric live outside
//! the library.

#![verifier::loop_isolation(false)]

pub mod bits;
pub mod delta;
pub mod dispatch;
pub mod driver;
pub mod endian;
pub mod framing;
pub mod huffman;
