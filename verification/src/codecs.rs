//! The codecs: each consumes byte chunks through `process` and finishes the
//! stream with a single `flush`, returning the transformed bytes it can
//! already complete.

pub mod huffman;
pub mod not;
