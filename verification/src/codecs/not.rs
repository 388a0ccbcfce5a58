//! A codec that inverts every bit of its input.

use vstd::prelude::*;

verus! {

/// Bit-inversion codec: every processed byte comes back with all bits
/// flipped; flushing emits nothing further.
pub struct Not {}

impl Not {
    /// A fresh inversion codec.
    pub fn new() -> Self {
        Not {  }
    }

    /// Returns the chunk with every byte bitwise inverted.
    pub fn process(&mut self, buffer: Vec<u8>) -> (r: Vec<u8>)
        ensures
            r@.len() == buffer@.len(),
            forall|i: int| 0 <= i < buffer@.len() ==> r@[i] == !buffer@[i],
    {
        let mut bytes: Vec<u8> = Vec::with_capacity(buffer.len());
        let mut i: usize = 0;
        while i < buffer.len()
            invariant
                i <= buffer@.len(),
                bytes@.len() == i,
                forall|k: int| 0 <= k < i ==> bytes@[k] == !buffer@[k],
            decreases buffer@.len() - i,
        {
            bytes.push(!buffer[i]);
            i += 1;
        }
        bytes
    }

    /// Ends the stream; the inversion codec buffers nothing, so this is empty.
    pub fn flush(&mut self) -> (r: Vec<u8>)
        ensures
            r@ == Seq::<u8>::empty(),
    {
        Vec::new()
    }
}

} // verus!
