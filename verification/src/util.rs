//! A growable bit sequence with deque ends, bulk byte conversion (MSB-first)
//! and packing into bytes with zero padding on a final partial byte.

use std::collections::VecDeque;
use vstd::prelude::*;

verus! {

/// The bits of one byte, most significant bit first.
pub open spec fn byte_bits(b: u8) -> Seq<bool> {
    seq![
        b & 0x80 != 0,
        b & 0x40 != 0,
        b & 0x20 != 0,
        b & 0x10 != 0,
        b & 0x08 != 0,
        b & 0x04 != 0,
        b & 0x02 != 0,
        b & 0x01 != 0,
    ]
}

/// MSB-first expansion of a byte sequence into a bit sequence.
pub open spec fn bits_of(s: Seq<u8>) -> Seq<bool>
    decreases s.len(),
{
    if s.len() == 0 {
        Seq::empty()
    } else {
        byte_bits(s[0]) + bits_of(s.drop_first())
    }
}

/// Bit `j` of a bit sequence, reading positions past the end as zero bits.
pub open spec fn bit_at(s: Seq<bool>, j: int) -> bool {
    0 <= j < s.len() && s[j]
}

/// The value of the byte formed by the first eight bits of `s`, MSB first,
/// zero-padded when `s` is shorter than eight bits.
pub open spec fn chunk_val(s: Seq<bool>) -> int {
    (if bit_at(s, 0) { 0x80int } else { 0int }) + (if bit_at(s, 1) { 0x40int } else { 0int })
        + (if bit_at(s, 2) { 0x20int } else { 0int }) + (if bit_at(s, 3) { 0x10int } else { 0int })
        + (if bit_at(s, 4) { 0x08int } else { 0int }) + (if bit_at(s, 5) { 0x04int } else { 0int })
        + (if bit_at(s, 6) { 0x02int } else { 0int }) + (if bit_at(s, 7) { 0x01int } else { 0int })
}

/// MSB-first packing of a bit sequence into bytes; the final byte is
/// zero-padded when the length is not a multiple of eight.
pub open spec fn pack_bits(s: Seq<bool>) -> Seq<u8>
    decreases s.len(),
{
    if s.len() == 0 {
        Seq::empty()
    } else if s.len() <= 8 {
        seq![chunk_val(s) as u8]
    } else {
        seq![chunk_val(s) as u8] + pack_bits(s.skip(8))
    }
}

/// Expands bytes into bits, most significant bit of each byte first.
pub fn bytes_to_bools(bytes: &[u8]) -> (r: Vec<bool>)
    ensures
        r@ == bits_of(bytes@),
{
    let mut vec: Vec<bool> = Vec::with_capacity(bytes.len());
    let mut i: usize = 0;
    proof {
        assert(bytes@.skip(0) =~= bytes@);
        assert(vec@ + bits_of(bytes@) =~= bits_of(bytes@));
    }
    while i < bytes.len()
        invariant
            i <= bytes@.len(),
            bits_of(bytes@) == vec@ + bits_of(bytes@.skip(i as int)),
        decreases bytes@.len() - i,
    {
        let b = bytes[i];
        let ghost pre = vec@;
        vec.push(b & 0x80 != 0);
        vec.push(b & 0x40 != 0);
        vec.push(b & 0x20 != 0);
        vec.push(b & 0x10 != 0);
        vec.push(b & 0x08 != 0);
        vec.push(b & 0x04 != 0);
        vec.push(b & 0x02 != 0);
        vec.push(b & 0x01 != 0);
        proof {
            assert(vec@ =~= pre + byte_bits(b));
            let rest = bytes@.skip(i as int);
            assert(rest[0] == bytes@[i as int]);
            assert(rest.drop_first() == bytes@.skip(i + 1));
            assert(byte_bits(b).take(8) == byte_bits(b));
            assert(bits_of(rest) == byte_bits(b) + bits_of(bytes@.skip(i + 1)));
            assert(vec@ + bits_of(bytes@.skip(i + 1)) == (pre + byte_bits(b)) + bits_of(
                bytes@.skip(i + 1),
            ));
        }
        i += 1;
    }
    proof {
        assert(bytes@.skip(bytes@.len() as int) == Seq::<u8>::empty());
    }
    vec
}

/// Packs bits into bytes, most significant bit first, zero-padding the final
/// partial byte.
pub fn bools_to_bytes(bools: &[bool]) -> (r: Vec<u8>)
    ensures
        r@ == pack_bits(bools@),
{
    let len = bools.len();
    let mut vec: Vec<u8> = Vec::with_capacity(len / 8);
    let mut i: usize = 0;
    proof {
        assert(bools@.skip(0) =~= bools@);
        assert(vec@ + pack_bits(bools@) =~= pack_bits(bools@));
    }
    while len - i >= 8
        invariant
            i <= len,
            len == bools@.len(),
            pack_bits(bools@) == vec@ + pack_bits(bools@.skip(i as int)),
        decreases len - i,
    {
        let mut b: u8 = 0;
        if bools[i] {
            b = b + 0x80;
        }
        if bools[i + 1] {
            b = b + 0x40;
        }
        if bools[i + 2] {
            b = b + 0x20;
        }
        if bools[i + 3] {
            b = b + 0x10;
        }
        if bools[i + 4] {
            b = b + 0x08;
        }
        if bools[i + 5] {
            b = b + 0x04;
        }
        if bools[i + 6] {
            b = b + 0x02;
        }
        if bools[i + 7] {
            b = b + 0x01;
        }
        vec.push(b);
        proof {
            let rest = bools@.skip(i as int);
            assert(bit_at(rest, 0) == bools@[i as int]);
            assert(bit_at(rest, 1) == bools@[i + 1]);
            assert(bit_at(rest, 2) == bools@[i + 2]);
            assert(bit_at(rest, 3) == bools@[i + 3]);
            assert(bit_at(rest, 4) == bools@[i + 4]);
            assert(bit_at(rest, 5) == bools@[i + 5]);
            assert(bit_at(rest, 6) == bools@[i + 6]);
            assert(bit_at(rest, 7) == bools@[i + 7]);
            assert(b as int == chunk_val(rest));
            if rest.len() <= 8 {
                assert(bools@.skip(i + 8) =~= Seq::<bool>::empty());
                assert(pack_bits(rest) == seq![b]);
                assert(vec@ + pack_bits(bools@.skip(i + 8)) =~= vec@);
            } else {
                assert(rest.skip(8) =~= bools@.skip(i + 8));
                assert(pack_bits(rest) == seq![b] + pack_bits(bools@.skip(i + 8)));
            }
            assert((vec@ + seq![b]) + pack_bits(bools@.skip(i + 8)) =~= vec@ + (seq![b]
                + pack_bits(bools@.skip(i + 8))));
        }
        i += 8;
    }
    if i < len {
        let mut b: u8 = 0;
        if bools[i] {
            b = b + 0x80;
        }
        if len - i > 1 && bools[i + 1] {
            b = b + 0x40;
        }
        if len - i > 2 && bools[i + 2] {
            b = b + 0x20;
        }
        if len - i > 3 && bools[i + 3] {
            b = b + 0x10;
        }
        if len - i > 4 && bools[i + 4] {
            b = b + 0x08;
        }
        if len - i > 5 && bools[i + 5] {
            b = b + 0x04;
        }
        if len - i > 6 && bools[i + 6] {
            b = b + 0x02;
        }
        vec.push(b);
        proof {
            let rest = bools@.skip(i as int);
            assert(bit_at(rest, 0) == bools@[i as int]);
            assert(bit_at(rest, 1) == (i + 1 < len && bools@[i + 1]));
            assert(bit_at(rest, 2) == (i + 2 < len && bools@[i + 2]));
            assert(bit_at(rest, 3) == (i + 3 < len && bools@[i + 3]));
            assert(bit_at(rest, 4) == (i + 4 < len && bools@[i + 4]));
            assert(bit_at(rest, 5) == (i + 5 < len && bools@[i + 5]));
            assert(bit_at(rest, 6) == (i + 6 < len && bools@[i + 6]));
            assert(!bit_at(rest, 7));
            assert(b as int == chunk_val(rest));
            assert(pack_bits(rest) == seq![b]);
        }
    } else {
        proof {
            assert(bools@.skip(len as int) == Seq::<bool>::empty());
        }
    }
    vec
}

/// An ordered bit sequence usable as a FIFO or as an accumulator. The view is
/// the sequence of bits from the front of the queue to its back.
pub struct BitQueue {
    q: VecDeque<bool>,
}

impl View for BitQueue {
    type V = Seq<bool>;

    closed spec fn view(&self) -> Seq<bool> {
        self.q@
    }
}

impl BitQueue {
    /// An empty bit queue.
    pub fn new() -> (r: Self)
        ensures
            r@ == Seq::<bool>::empty(),
    {
        BitQueue { q: VecDeque::new() }
    }

    /// An empty bit queue with room reserved for `capacity` bits.
    pub fn with_capacity(capacity: usize) -> (r: Self)
        ensures
            r@ == Seq::<bool>::empty(),
    {
        BitQueue { q: VecDeque::with_capacity(capacity) }
    }

    /// Adds one bit at the front of the queue.
    pub fn push_front(&mut self, item: bool)
        ensures
            final (self)@ == seq![item] + old(self)@,
    {
        self.q.push_front(item);
        proof {
            assert(final (self)@ =~= seq![item] + old(self)@);
        }
    }

    /// Adds one bit at the back of the queue.
    pub fn push_back(&mut self, item: bool)
        ensures
            final (self)@ == old(self)@.push(item),
    {
        self.q.push_back(item);
    }

    /// Removes and returns the front bit; `None` when the queue is empty.
    pub fn pop_front(&mut self) -> (r: Option<bool>)
        ensures
            old(self)@.len() == 0 ==> r is None && final (self)@ == old(self)@,
            old(self)@.len() > 0 ==> r == Some(old(self)@[0]) && final (self)@ == old(
                self,
            )@.drop_first(),
    {
        self.q.pop_front()
    }

    /// Removes and returns the back bit; `None` when the queue is empty.
    pub fn pop_back(&mut self) -> (r: Option<bool>)
        ensures
            old(self)@.len() == 0 ==> r is None && final (self)@ == old(self)@,
            old(self)@.len() > 0 ==> r == Some(old(self)@.last()) && final (self)@ == old(
                self,
            )@.drop_last(),
    {
        self.q.pop_back()
    }

    /// Empties the queue.
    pub fn clear(&mut self)
        ensures
            final (self)@ == Seq::<bool>::empty(),
    {
        self.q.clear();
    }

    /// The number of bits held.
    pub fn len(&self) -> (r: usize)
        ensures
            r == self@.len(),
    {
        self.q.len()
    }

    /// Appends the bits of `bytes` at the back, most significant bit of each
    /// byte first.
    pub fn push_back_u8s(&mut self, bytes: &[u8])
        ensures
            final (self)@ == old(self)@ + bits_of(bytes@),
    {
        let bits = bytes_to_bools(bytes);
        let mut k: usize = 0;
        proof {
            assert(self@ + bits@.take(0) =~= self@);
        }
        while k < bits.len()
            invariant
                k <= bits@.len(),
                self@ == old(self)@ + bits@.take(k as int),
            decreases bits@.len() - k,
        {
            self.push_back(bits[k]);
            proof {
                assert(bits@.take(k + 1) =~= bits@.take(k as int).push(bits@[k as int]));
                assert(old(self)@ + bits@.take(k + 1) =~= (old(self)@ + bits@.take(k as int)).push(
                    bits@[k as int],
                ));
            }
            k += 1;
        }
        proof {
            assert(bits@.take(bits@.len() as int) =~= bits@);
        }
    }

    /// The bits as a vector, back of the queue first.
    pub fn as_vec(&self) -> (r: Vec<bool>)
        ensures
            r@ == self@.reverse(),
    {
        let mut vec: Vec<bool> = Vec::with_capacity(self.q.len());
        let len = self.q.len();
        let mut k: usize = len;
        while k > 0
            invariant
                k <= len,
                len == self@.len(),
                vec@ == self@.reverse().take(len - k),
            decreases k,
        {
            k -= 1;
            vec.push(self.q[k]);
            proof {
                assert(self@.reverse()[len - k - 1] == self@[k as int]);
                assert(self@.reverse().take(len - k) =~= self@.reverse().take(len - k - 1).push(
                    self@.reverse()[len - k - 1],
                ));
            }
        }
        proof {
            assert(self@.reverse().take(len as int) =~= self@.reverse());
        }
        vec
    }

    /// A queue whose back-to-front order is the given vector: element 0 of
    /// `vec` becomes the back of the queue, as `as_vec` reads it.
    pub fn from_vec(vec: Vec<bool>) -> (r: Self)
        ensures
            r@ == vec@.reverse(),
    {
        let mut q: VecDeque<bool> = VecDeque::with_capacity(vec.len());
        let len = vec.len();
        let mut k: usize = len;
        while k > 0
            invariant
                k <= len,
                len == vec@.len(),
                q@ == vec@.reverse().take(len - k),
            decreases k,
        {
            k -= 1;
            q.push_back(vec[k]);
            proof {
                assert(vec@.reverse()[len - k - 1] == vec@[k as int]);
                assert(vec@.reverse().take(len - k) =~= vec@.reverse().take(len - k - 1).push(
                    vec@.reverse()[len - k - 1],
                ));
            }
        }
        proof {
            assert(vec@.reverse().take(len as int) =~= vec@.reverse());
        }
        BitQueue { q }
    }

    /// Packs the first `num_bytes` whole bytes of the queue's back-to-front
    /// bit order, clamped to the number of complete bytes held.
    pub fn partial_to_u8s(&self, num_bytes: usize) -> (r: Vec<u8>)
        ensures
            r@ == pack_bits(
                self@.reverse().take(
                    8 * vstd::math::min(num_bytes as int, self@.len() as int / 8),
                ),
            ),
    {
        let mut nb = num_bytes;
        let whole = self.q.len() / 8;
        if nb > whole {
            nb = whole;
        }
        if nb == 0 {
            proof {
                assert(self@.reverse().take(0) =~= Seq::<bool>::empty());
            }
            return Vec::new();
        }
        proof {
            assert(8 * (self@.len() as int / 8) <= self@.len());
        }
        let v = self.as_vec();
        let s = vstd::slice::slice_subrange(v.as_slice(), 0, nb * 8);
        proof {
            assert(s@ =~= self@.reverse().take(8 * nb as int));
        }
        bools_to_bytes(s)
    }

    /// Packs every complete byte of the queue's back-to-front bit order,
    /// leaving out a final incomplete byte.
    pub fn to_u8s(&self) -> (r: Vec<u8>)
        ensures
            r@ == pack_bits(self@.reverse().take(8 * (self@.len() as int / 8))),
    {
        self.partial_to_u8s(self.len() / 8 + 1)
    }

    /// Appends the given bits at the back of the queue.
    pub fn extend(&mut self, items: &[bool])
        ensures
            final (self)@ == old(self)@ + items@,
    {
        let mut k: usize = 0;
        proof {
            assert(self@ + items@.take(0) =~= self@);
        }
        while k < items.len()
            invariant
                k <= items@.len(),
                self@ == old(self)@ + items@.take(k as int),
            decreases items@.len() - k,
        {
            self.push_back(items[k]);
            proof {
                assert(old(self)@ + items@.take(k + 1) =~= (old(self)@ + items@.take(
                    k as int,
                )).push(items@[k as int]));
            }
            k += 1;
        }
        proof {
            assert(items@.take(items@.len() as int) =~= items@);
        }
    }

    /// Moves every bit of `other` to the back of this queue, leaving `other`
    /// empty.
    pub fn append(&mut self, other: &mut Self)
        ensures
            final (self)@ == old(self)@ + old(other)@,
            final (other)@ == Seq::<bool>::empty(),
    {
        self.q.append(&mut other.q);
    }

    /// Appends a copy of every bit of `other` at the back of this queue,
    /// front of `other` first, without changing `other`.
    pub fn copy_from(&mut self, other: &Self)
        ensures
            final (self)@ == old(self)@ + other@,
    {
        let mut k: usize = 0;
        proof {
            assert(self@ + other@.take(0) =~= self@);
        }
        while k < other.q.len()
            invariant
                k <= other@.len(),
                self@ == old(self)@ + other@.take(k as int),
            decreases other@.len() - k,
        {
            self.push_back(other.q[k]);
            proof {
                assert(old(self)@ + other@.take(k + 1) =~= (old(self)@ + other@.take(
                    k as int,
                )).push(other@[k as int]));
            }
            k += 1;
        }
        proof {
            assert(other@.take(other@.len() as int) =~= other@);
        }
    }
}

impl From<&[u8]> for BitQueue {
    /// A queue holding the MSB-first bits of `bytes`, ordered so that the
    /// first bit of the stream sits at the back of the queue.
    fn from(bytes: &[u8]) -> (r: Self) {
        Self::from_vec(bytes_to_bools(bytes))
    }
}

impl vstd::std_specs::convert::FromSpecImpl<&[u8]> for BitQueue {
    open spec fn obeys_from_spec() -> bool {
        false
    }

    open spec fn from_spec(v: &[u8]) -> Self {
        arbitrary()
    }
}

/// A run of `n` zero bits.
pub open spec fn zeros(n: nat) -> Seq<bool> {
    Seq::new(n, |i: int| false)
}

/// The zero bits that pad a sequence of `n` bits up to a byte boundary.
pub open spec fn pad_len(n: nat) -> nat {
    ((8 - (n % 8)) % 8) as nat
}

/// Expanding a concatenation expands each part.
pub proof fn lemma_bits_of_append(a: Seq<u8>, b: Seq<u8>)
    ensures
        bits_of(a + b) == bits_of(a) + bits_of(b),
    decreases a.len(),
{
    if a.len() == 0 {
        assert(a + b =~= b);
        assert(bits_of(a) + bits_of(b) =~= bits_of(b));
    } else {
        lemma_bits_of_append(a.drop_first(), b);
        assert((a + b)[0] == a[0]);
        assert((a + b).drop_first() =~= a.drop_first() + b);
        assert(bits_of(a + b) == byte_bits(a[0]) + (bits_of(a.drop_first()) + bits_of(b)));
        assert(byte_bits(a[0]) + (bits_of(a.drop_first()) + bits_of(b)) =~= (byte_bits(a[0])
            + bits_of(a.drop_first())) + bits_of(b));
    }
}

/// A byte sequence expands to eight bits per byte.
pub proof fn lemma_bits_of_len(s: Seq<u8>)
    ensures
        bits_of(s).len() == 8 * s.len(),
    decreases s.len(),
{
    if s.len() > 0 {
        lemma_bits_of_len(s.drop_first());
    }
}

proof fn lemma_cv_byte_bits(b: u8)
    ensures
        chunk_val(byte_bits(b)) == b,
{
    assert((if b & 0x80 != 0 {
        0x80int
    } else {
        0int
    }) + (if b & 0x40 != 0 {
        0x40int
    } else {
        0int
    }) + (if b & 0x20 != 0 {
        0x20int
    } else {
        0int
    }) + (if b & 0x10 != 0 {
        0x10int
    } else {
        0int
    }) + (if b & 0x08 != 0 {
        0x08int
    } else {
        0int
    }) + (if b & 0x04 != 0 {
        0x04int
    } else {
        0int
    }) + (if b & 0x02 != 0 {
        0x02int
    } else {
        0int
    }) + (if b & 0x01 != 0 {
        0x01int
    } else {
        0int
    }) == b) by (bit_vector);
}

proof fn lemma_chunk_byte_bits(c: Seq<bool>)
    requires
        c.len() <= 8,
    ensures
        byte_bits(chunk_val(c) as u8) =~= c + zeros((8 - c.len()) as nat),
{
    let x0: u8 = if bit_at(c, 0) {
        1
    } else {
        0
    };
    let x1: u8 = if bit_at(c, 1) {
        1
    } else {
        0
    };
    let x2: u8 = if bit_at(c, 2) {
        1
    } else {
        0
    };
    let x3: u8 = if bit_at(c, 3) {
        1
    } else {
        0
    };
    let x4: u8 = if bit_at(c, 4) {
        1
    } else {
        0
    };
    let x5: u8 = if bit_at(c, 5) {
        1
    } else {
        0
    };
    let x6: u8 = if bit_at(c, 6) {
        1
    } else {
        0
    };
    let x7: u8 = if bit_at(c, 7) {
        1
    } else {
        0
    };
    let b: u8 = (chunk_val(c)) as u8;
    assert(b == x0 * 0x80 + x1 * 0x40 + x2 * 0x20 + x3 * 0x10 + x4 * 8 + x5 * 4 + x6 * 2 + x7);
    assert((x0 <= 1 && x1 <= 1 && x2 <= 1 && x3 <= 1 && x4 <= 1 && x5 <= 1 && x6 <= 1 && x7 <= 1
        && b == x0 * 0x80 + x1 * 0x40 + x2 * 0x20 + x3 * 0x10 + x4 * 8 + x5 * 4 + x6 * 2 + x7)
        ==> ((b & 0x80 != 0) == (x0 == 1)) && ((b & 0x40 != 0) == (x1 == 1)) && ((b & 0x20 != 0)
        == (x2 == 1)) && ((b & 0x10 != 0) == (x3 == 1)) && ((b & 0x08 != 0) == (x4 == 1)) && ((b
        & 0x04 != 0) == (x5 == 1)) && ((b & 0x02 != 0) == (x6 == 1)) && ((b & 0x01 != 0) == (x7
        == 1))) by (bit_vector);
    assert forall|j: int| 0 <= j < 8 implies byte_bits(b)[j] == bit_at(c, j) by {}
}

proof fn lemma_chunk_prefix(c: Seq<bool>, x: Seq<bool>)
    requires
        c.len() == 8,
    ensures
        chunk_val(c + x) == chunk_val(c),
{
    assert forall|j: int| 0 <= j < 8 implies bit_at(c + x, j) == bit_at(c, j) by {
        assert((c + x)[j] == c[j]);
    }
}

/// Packing the expansion of bytes gives the bytes back.
pub proof fn lemma_pack_bits_of(e: Seq<u8>)
    ensures
        pack_bits(bits_of(e)) == e,
    decreases e.len(),
{
    if e.len() == 0 {
        assert(pack_bits(bits_of(e)) =~= e);
    } else {
        lemma_pack_bits_of(e.drop_first());
        lemma_bits_of_len(e.drop_first());
        lemma_cv_byte_bits(e[0]);
        let bb = byte_bits(e[0]);
        let rest = bits_of(e.drop_first());
        assert(bits_of(e) == bb + rest);
        if e.len() == 1 {
            assert(rest.len() == 0);
            assert(bb + rest =~= bb);
            assert(chunk_val(bb) == e[0]);
            assert(pack_bits(bb) =~= seq![e[0]]);
            assert(seq![e[0]] =~= e);
        } else {
            assert((bb + rest).len() > 8);
            lemma_chunk_prefix(bb, rest);
            assert(chunk_val(bb + rest) == e[0]);
            assert((bb + rest).skip(8) =~= rest);
            assert(pack_bits(bits_of(e)) == seq![e[0]] + pack_bits(rest));
            assert(seq![e[0]] + e.drop_first() =~= e);
        }
    }
}

/// Packing an aligned prefix and a tail separately packs their
/// concatenation.
pub proof fn lemma_pack_append_aligned(x: Seq<bool>, y: Seq<bool>)
    requires
        x.len() % 8 == 0,
    ensures
        pack_bits(x + y) == pack_bits(x) + pack_bits(y),
    decreases x.len(),
{
    if x.len() == 0 {
        assert(x + y =~= y);
        assert(pack_bits(x) + pack_bits(y) =~= pack_bits(y));
    } else {
        assert(x.len() >= 8);
        lemma_chunk_prefix(x.take(8), x.skip(8));
        assert(x.take(8) + x.skip(8) =~= x);
        assert(chunk_val(x) == chunk_val(x.take(8))) by {
            assert(chunk_val(x.take(8) + x.skip(8)) == chunk_val(x.take(8)));
        }
        lemma_chunk_prefix(x.take(8), x.skip(8) + y);
        assert(x.take(8) + (x.skip(8) + y) =~= x + y);
        assert(chunk_val(x + y) == chunk_val(x.take(8)));
        if y.len() == 0 {
            assert(x + y =~= x);
            assert(pack_bits(x) + pack_bits(y) =~= pack_bits(x));
        } else {
            lemma_pack_append_aligned(x.skip(8), y);
            assert((x + y).len() > 8);
            assert((x + y).skip(8) =~= x.skip(8) + y);
            assert(pack_bits(x + y) == seq![chunk_val(x.take(8)) as u8] + (pack_bits(x.skip(8))
                + pack_bits(y)));
            if x.len() == 8 {
                assert(x.skip(8) =~= Seq::<bool>::empty());
                assert(pack_bits(x) =~= seq![chunk_val(x) as u8]);
                assert(pack_bits(x.skip(8)) =~= Seq::<u8>::empty());
                assert(seq![chunk_val(x.take(8)) as u8] + (pack_bits(x.skip(8)) + pack_bits(y))
                    =~= pack_bits(x) + pack_bits(y));
            } else {
                assert(pack_bits(x) == seq![chunk_val(x) as u8] + pack_bits(x.skip(8)));
                assert(seq![chunk_val(x.take(8)) as u8] + (pack_bits(x.skip(8)) + pack_bits(y))
                    =~= (seq![chunk_val(x) as u8] + pack_bits(x.skip(8))) + pack_bits(y));
            }
        }
    }
}

/// Expanding a packed bit sequence gives the bits back, followed by the zero
/// padding of the final byte.
pub proof fn lemma_bits_of_pack(x: Seq<bool>)
    ensures
        bits_of(pack_bits(x)) == x + zeros(pad_len(x.len())),
    decreases x.len(),
{
    if x.len() == 0 {
        assert(bits_of(pack_bits(x)) =~= x + zeros(pad_len(x.len())));
    } else if x.len() <= 8 {
        lemma_chunk_byte_bits(x);
        assert(pack_bits(x) == seq![chunk_val(x) as u8]);
        assert(pack_bits(x)[0] == chunk_val(x) as u8);
        assert(pack_bits(x).drop_first() =~= Seq::<u8>::empty());
        assert(bits_of(pack_bits(x).drop_first()) == Seq::<bool>::empty());
        assert(bits_of(pack_bits(x)) == byte_bits(chunk_val(x) as u8) + Seq::<bool>::empty());
        assert(bits_of(pack_bits(x)) =~= byte_bits(chunk_val(x) as u8));
        if x.len() == 8 {
            assert(zeros(pad_len(x.len())) =~= zeros(0));
            assert(bits_of(pack_bits(x)) =~= x + zeros(pad_len(x.len())));
        } else {
            assert(pad_len(x.len()) == 8 - x.len());
            assert(bits_of(pack_bits(x)) =~= x + zeros(pad_len(x.len())));
        }
    } else {
        lemma_bits_of_pack(x.skip(8));
        lemma_chunk_prefix(x.take(8), x.skip(8));
        assert(x.take(8) + x.skip(8) =~= x);
        assert(chunk_val(x) == chunk_val(x.take(8)));
        lemma_chunk_byte_bits(x.take(8));
        assert(byte_bits(chunk_val(x) as u8) =~= x.take(8) + zeros(0));
        assert(byte_bits(chunk_val(x) as u8) =~= x.take(8));
        assert(pack_bits(x) == seq![chunk_val(x) as u8] + pack_bits(x.skip(8)));
        assert(pack_bits(x)[0] == chunk_val(x) as u8);
        assert(pack_bits(x).drop_first() =~= pack_bits(x.skip(8)));
        assert(bits_of(pack_bits(x)) == byte_bits(chunk_val(x) as u8) + bits_of(
            pack_bits(x.skip(8)),
        ));
        assert(pad_len(x.len()) == pad_len((x.len() - 8) as nat));
        assert(x.take(8) + (x.skip(8) + zeros(pad_len(x.len()))) =~= x + zeros(pad_len(x.len())));
    }
}

} // verus!
