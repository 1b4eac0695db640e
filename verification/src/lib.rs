//! A variable-length (LEB128-style) codec for unsigned 64-bit integers.
//!
//! Each encoded byte carries seven data bits in its low-order bits; the
//! high-order bit is a continuation flag that is set exactly when more bytes
//! of the same value follow. Groups are emitted least-significant first, and
//! the encoder always produces the minimal number of bytes (one byte, `0x00`,
//! for the value zero). Batches of values are plain concatenations of the
//! individual encodings; boundaries are recovered by decoding.
//!
//! The mathematical form of the wire format lives in [`model`], the verified
//! executable functions in [`codec`], and the proved laws of the format
//! (round trips, minimality, behaviour on truncated input) in [`laws`].

pub mod codec;
pub mod laws;
pub mod model;

pub use codec::Error;
pub use codec::compress;
pub use codec::compress_list;
pub use codec::decompress;
pub use codec::decompress_list;
pub use codec::decompress_n;
