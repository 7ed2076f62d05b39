//! The bit-level model: how a byte is taken apart into bits and put back
//! together, and the `BitIter` iteration over a byte's bits.
//!
//! Bits leave a byte least-significant first: bit `k` of the byte is the
//! `k`-th bit of the stream. Packing is the inverse: the `k`-th of eight
//! incoming bits lands at bit position `k`.

use vstd::prelude::*;

verus! {

/// True when bit `k` of `b` is set, counting from the least-significant end.
pub open spec fn byte_bit(b: u8, k: int) -> bool {
    b >> (k as u8) & 1 == 1
}

/// The eight bits of one byte in stream order: least-significant first.
pub open spec fn bits_of_byte(b: u8) -> Seq<bool> {
    Seq::new(8, |k: int| byte_bit(b, k))
}

/// The bit stream of a byte sequence: each byte contributes its eight bits,
/// least-significant first.
pub open spec fn bits_of_bytes(s: Seq<u8>) -> Seq<bool> {
    Seq::new(s.len() * 8, |i: int| byte_bit(s[i / 8], i % 8))
}

/// The byte whose bit `k` is `bits[k]`, for eight bits in stream order.
pub open spec fn pack_byte(bits: Seq<bool>) -> u8
    recommends
        bits.len() == 8,
{
    (if bits[0] { 1u8 } else { 0u8 }) | (if bits[1] { 2u8 } else { 0u8 })
        | (if bits[2] { 4u8 } else { 0u8 }) | (if bits[3] { 8u8 } else { 0u8 })
        | (if bits[4] { 16u8 } else { 0u8 }) | (if bits[5] { 32u8 } else { 0u8 })
        | (if bits[6] { 64u8 } else { 0u8 }) | (if bits[7] { 128u8 } else { 0u8 })
}

/// The least-significant bit of a channel value, where hidden bits live.
pub open spec fn lsb(c: u8) -> bool {
    c & 1 == 1
}

/// A channel value with its least-significant bit forced to `bit` and all
/// other bits kept.
pub open spec fn with_lsb(c: u8, bit: bool) -> u8 {
    if bit {
        c | 1
    } else {
        c & 0xfe
    }
}

/// Setting the least-significant bit and reading it back yields the bit.
pub proof fn lemma_lsb_with_lsb(c: u8, bit: bool)
    ensures
        lsb(with_lsb(c, bit)) == bit,
{
    if bit {
        assert((c | 1) & 1 == 1) by (bit_vector);
    } else {
        assert((c & 0xfe) & 1 == 0) by (bit_vector);
    }
}

/// Forcing the least-significant bit keeps the seven high bits.
pub proof fn lemma_with_lsb_high_bits(c: u8, bit: bool, k: int)
    requires
        1 <= k < 8,
    ensures
        byte_bit(with_lsb(c, bit), k) == byte_bit(c, k),
{
    let ku = k as u8;
    assert(1 <= ku < 8);
    assert((c | 1) >> ku & 1 == c >> ku & 1) by (bit_vector)
        requires
            1 <= ku < 8,
    ;
    assert((c & 0xfe) >> ku & 1 == c >> ku & 1) by (bit_vector)
        requires
            1 <= ku < 8,
    ;
}

/// Packing the bits of a byte gives back each of its bits: bit `k` of
/// `pack_byte(bits)` is `bits[k]`.
pub proof fn lemma_pack_byte_bits(bits: Seq<bool>, k: int)
    requires
        bits.len() == 8,
        0 <= k < 8,
    ensures
        byte_bit(pack_byte(bits), k) == bits[k],
{
    let v0: u8 = if bits[0] { 1 } else { 0 };
    let v1: u8 = if bits[1] { 2 } else { 0 };
    let v2: u8 = if bits[2] { 4 } else { 0 };
    let v3: u8 = if bits[3] { 8 } else { 0 };
    let v4: u8 = if bits[4] { 16 } else { 0 };
    let v5: u8 = if bits[5] { 32 } else { 0 };
    let v6: u8 = if bits[6] { 64 } else { 0 };
    let v7: u8 = if bits[7] { 128 } else { 0 };
    let p: u8 = v0 | v1 | v2 | v3 | v4 | v5 | v6 | v7;
    assert(p == pack_byte(bits));
    assert((v0 == 0 || v0 == 1) && (v1 == 0 || v1 == 2) && (v2 == 0 || v2 == 4) && (v3 == 0 || v3
        == 8) && (v4 == 0 || v4 == 16) && (v5 == 0 || v5 == 32) && (v6 == 0 || v6 == 64) && (v7
        == 0 || v7 == 128) ==> ((p >> 0u8 & 1 == 1) == (v0 == 1)) && ((p >> 1u8 & 1 == 1) == (v1
        == 2)) && ((p >> 2u8 & 1 == 1) == (v2 == 4)) && ((p >> 3u8 & 1 == 1) == (v3 == 8)) && ((p
        >> 4u8 & 1 == 1) == (v4 == 16)) && ((p >> 5u8 & 1 == 1) == (v5 == 32)) && ((p >> 6u8 & 1
        == 1) == (v6 == 64)) && ((p >> 7u8 & 1 == 1) == (v7 == 128))) by (bit_vector)
        requires
            p == (v0 | v1 | v2 | v3 | v4 | v5 | v6 | v7),
    ;
    if k == 0 {
        assert(byte_bit(p, 0) == bits[0]);
    } else if k == 1 {
        assert(byte_bit(p, 1) == bits[1]);
    } else if k == 2 {
        assert(byte_bit(p, 2) == bits[2]);
    } else if k == 3 {
        assert(byte_bit(p, 3) == bits[3]);
    } else if k == 4 {
        assert(byte_bit(p, 4) == bits[4]);
    } else if k == 5 {
        assert(byte_bit(p, 5) == bits[5]);
    } else {
        assert(byte_bit(p, 6) == bits[6]);
        assert(byte_bit(p, 7) == bits[7]);
    }
}

/// Two bytes that agree on each of their eight bits are equal.
pub proof fn lemma_byte_bits_eq(a: u8, b: u8)
    requires
        forall|k: int| 0 <= k < 8 ==> byte_bit(a, k) == byte_bit(b, k),
    ensures
        a == b,
{
    assert(byte_bit(a, 0) == byte_bit(b, 0));
    assert(byte_bit(a, 1) == byte_bit(b, 1));
    assert(byte_bit(a, 2) == byte_bit(b, 2));
    assert(byte_bit(a, 3) == byte_bit(b, 3));
    assert(byte_bit(a, 4) == byte_bit(b, 4));
    assert(byte_bit(a, 5) == byte_bit(b, 5));
    assert(byte_bit(a, 6) == byte_bit(b, 6));
    assert(byte_bit(a, 7) == byte_bit(b, 7));
    assert(((a >> 0u8 & 1 == 1) == (b >> 0u8 & 1 == 1)) && ((a >> 1u8 & 1 == 1) == (b >> 1u8 & 1
        == 1)) && ((a >> 2u8 & 1 == 1) == (b >> 2u8 & 1 == 1)) && ((a >> 3u8 & 1 == 1) == (b >> 3u8
        & 1 == 1)) && ((a >> 4u8 & 1 == 1) == (b >> 4u8 & 1 == 1)) && ((a >> 5u8 & 1 == 1) == (b
        >> 5u8 & 1 == 1)) && ((a >> 6u8 & 1 == 1) == (b >> 6u8 & 1 == 1)) && ((a >> 7u8 & 1 == 1)
        == (b >> 7u8 & 1 == 1)) ==> a == b) by (bit_vector);
}

/// A byte whose bits come out one call at a time, least-significant first.
pub struct IterBits {
    value: u8,
    i: u8,
}

impl IterBits {
    /// The byte being iterated.
    pub closed spec fn byte(&self) -> u8 {
        self.value
    }

    /// How many bits have come out so far.
    pub closed spec fn pos(&self) -> int {
        self.i as int
    }

    pub open spec fn wf(&self) -> bool {
        0 <= self.pos() <= 8
    }

    /// The next bit of the byte, or `None` once all eight are out.
    pub fn next(&mut self) -> (r: Option<bool>)
        requires
            old(self).wf(),
        ensures
            final(self).wf(),
            final(self).byte() == old(self).byte(),
            old(self).pos() < 8 ==> final(self).pos() == old(self).pos() + 1 && r == Some(
                bits_of_byte(old(self).byte())[old(self).pos()],
            ),
            old(self).pos() >= 8 ==> final(self).pos() == old(self).pos() && r is None,
    {
        if self.i < 8 {
            let mask: u8 = 1u8 << self.i;
            let is_set = self.value & mask != 0;
            proof {
                let iu: u8 = self.i;
                let v: u8 = self.value;
                assert((v & (1u8 << iu) != 0) == (v >> iu & 1 == 1)) by (bit_vector)
                    requires
                        iu < 8,
                ;
            }
            self.i = self.i + 1;
            Some(is_set)
        } else {
            None
        }
    }
}

/// Iteration over the bits of a value, in the order the stream embeds them.
pub trait BitIter: Sized {
    /// The byte whose bits the iterator yields.
    spec fn bit_source(&self) -> u8;

    /// A fresh iterator over the bits, least-significant first.
    fn iter_bits(self) -> (r: IterBits)
        ensures
            r.byte() == self.bit_source(),
            r.pos() == 0,
    ;
}

impl BitIter for u8 {
    open spec fn bit_source(&self) -> u8 {
        *self
    }

    fn iter_bits(self) -> (r: IterBits) {
        IterBits { value: self, i: 0 }
    }
}

} // verus!
