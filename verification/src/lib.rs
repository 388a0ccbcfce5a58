//! Streaming byte-transformation codecs.
//!
//! The crate offers a growable bit queue ([`util::BitQueue`]), a bit-inversion
//! codec, and an order-0 Huffman compressor and decompressor that frame a
//! 256-entry byte-frequency table as a fixed 2048-byte header ahead of the
//! MSB-first coded payload.

pub mod codecs;
pub mod util;
