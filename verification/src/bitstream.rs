//! Reads codes of a varying number of bits from a byte stream.
//!
//! Bits are packed least significant first: the first bit of the stream is
//! bit 0 of the first byte, and bit 0 of the next byte follows bit 7.

use vstd::prelude::*;
use vstd::arithmetic::power2::{pow2, lemma2_to64};
use crate::subblock::ByteSource;

verus! {

/// The byte at index `i` of `s`, or zero past its end.
pub open spec fn byte_or_zero(s: Seq<u8>, i: int) -> u8 {
    if 0 <= i < s.len() {
        s[i]
    } else {
        0
    }
}

/// The first three bytes of `s`, read as one little-endian number.
pub open spec fn window24(s: Seq<u8>) -> u32 {
    (byte_or_zero(s, 0) as u32) | ((byte_or_zero(s, 1) as u32) << 8) | ((byte_or_zero(s, 2) as u32)
        << 16)
}

/// The `n` bits of `s` that start at bit `pos`, least significant first, as a
/// number. Meant for `0 <= pos <= 8` and `1 <= n <= 15`.
pub open spec fn bits_at(s: Seq<u8>, pos: int, n: int) -> u16 {
    ((window24(s) >> (pos as u32)) & (((1u32 << (n as u32)) - 1) as u32)) as u16
}

/// Where a reader stands after a request for `n` bits, as the bytes from the
/// one in hand on and the bit cursor into them.
///
/// With `n` bits left to read, the cursor moves `n` bits on. With fewer, the
/// source is drained and the last byte it gave stays in hand; the cursor stays
/// where it was, unless it stood past the byte in hand and a byte was fetched.
pub open spec fn bits_after(bytes: Seq<u8>, cursor: int, n: int) -> (Seq<u8>, int) {
    if 8 * bytes.len() - cursor >= n {
        let k = (cursor + n - 1) / 8;
        (bytes.skip(k), cursor + n - 8 * k)
    } else {
        (
            seq![bytes.last()],
            if cursor == 8 && bytes.len() > 1 {
                0
            } else {
                cursor
            },
        )
    }
}

proof fn lemma_mask_bound(w: u32, n: u32)
    by (bit_vector)
    requires
        1 <= n <= 15,
    ensures
        w & (((1u32 << n) - 1) as u32) < (1u32 << n),
        w & (((1u32 << n) - 1) as u32) < 0x8000,
{
}

proof fn lemma_shl_pow2(n: u32)
    requires
        1 <= n <= 15,
    ensures
        (1u32 << n) == pow2(n as nat),
{
    lemma2_to64();
    assert((1u32 << 1) == 2 && (1u32 << 2) == 4 && (1u32 << 3) == 8 && (1u32 << 4) == 16 && (1u32
        << 5) == 32 && (1u32 << 6) == 64 && (1u32 << 7) == 128 && (1u32 << 8) == 256 && (1u32 << 9)
        == 512 && (1u32 << 10) == 1024 && (1u32 << 11) == 2048 && (1u32 << 12) == 4096 && (1u32
        << 13) == 8192 && (1u32 << 14) == 16384 && (1u32 << 15) == 32768) by (bit_vector);
}

/// A code of `n` bits is a number below `2^n`.
pub proof fn lemma_bits_at_bound(s: Seq<u8>, pos: int, n: int)
    requires
        1 <= n <= 15,
    ensures
        (bits_at(s, pos, n) as int) < pow2(n as nat),
{
    lemma_mask_bound(window24(s) >> (pos as u32), n as u32);
    lemma_shl_pow2(n as u32);
}

/// Bit `k` of a byte sequence, least significant bit of each byte first.
pub open spec fn bit_of(s: Seq<u8>, k: int) -> bool {
    (byte_or_zero(s, k / 8) >> ((k % 8) as u8)) & 1 == 1
}

proof fn lemma_window_bit(x0: u8, x1: u8, x2: u8, k: u32)
    by (bit_vector)
    requires
        k < 24,
    ensures
        k < 8 ==> ((((x0 as u32) | ((x1 as u32) << 8) | ((x2 as u32) << 16)) >> k) & 1 == 1) == ((
        x0 >> (k as u8)) & 1 == 1),
        8 <= k < 16 ==> ((((x0 as u32) | ((x1 as u32) << 8) | ((x2 as u32) << 16)) >> k) & 1 == 1)
            == ((x1 >> ((k - 8) as u8)) & 1 == 1),
        16 <= k ==> ((((x0 as u32) | ((x1 as u32) << 8) | ((x2 as u32) << 16)) >> k) & 1 == 1) == ((
        x2 >> ((k - 16) as u8)) & 1 == 1),
{
}

proof fn lemma_masked_bit(w: u32, pos: u32, n: u32, i: u32)
    by (bit_vector)
    requires
        pos <= 8,
        1 <= n <= 15,
        i < n,
    ensures
        (((((w >> pos) & (((1u32 << n) - 1) as u32)) as u16) >> (i as u16)) & 1 == 1) == ((w >> ((
        pos + i) as u32)) & 1 == 1),
{
}

/// Bit `i` of the number read at bit `pos` is bit `pos + i` of the bytes: the
/// bits of a code come least significant first.
pub proof fn lemma_bits_at_bit(s: Seq<u8>, pos: int, n: int, i: int)
    requires
        0 <= pos <= 8,
        1 <= n <= 15,
        0 <= i < n,
    ensures
        ((bits_at(s, pos, n) >> (i as u16)) & 1 == 1) == bit_of(s, pos + i),
{
    let k = pos + i;
    lemma_masked_bit(window24(s), pos as u32, n as u32, i as u32);
    lemma_window_bit(byte_or_zero(s, 0), byte_or_zero(s, 1), byte_or_zero(s, 2), k as u32);
    if k < 8 {
        assert(k / 8 == 0 && k % 8 == k);
    } else if k < 16 {
        assert(k / 8 == 1 && k % 8 == k - 8);
    } else {
        assert(k / 8 == 2 && k % 8 == k - 16);
    }
}

proof fn lemma_bits_one_byte(x0: u8, x1: u8, x2: u8, c: u8, n: u8)
    by (bit_vector)
    requires
        c < 8,
        1 <= n,
        n <= 8 - c,
    ensures
        ((x0 >> c) as u16) & (((1u16 << (n as u16)) - 1) as u16) == ((((x0 as u32) | ((x1 as u32)
            << 8) | ((x2 as u32) << 16)) >> (c as u32)) & (((1u32 << (n as u32)) - 1) as u32))
            as u16,
{
}

proof fn lemma_bits_two_bytes(x0: u8, x1: u8, x2: u8, c: u8, n: u8)
    by (bit_vector)
    requires
        c < 8,
        8 - c < n,
        n <= 16 - c,
        n <= 15,
    ensures
        (((x0 >> c) as u16) | ((x1 as u16) << ((8 - c) as u16))) & (((1u16 << (n as u16))
            - 1) as u16) == ((((x0 as u32) | ((x1 as u32) << 8) | ((x2 as u32) << 16)) >> (
        c as u32)) & (((1u32 << (n as u32)) - 1) as u32)) as u16,
{
}

proof fn lemma_bits_three_bytes(x0: u8, x1: u8, x2: u8, c: u8, n: u8)
    by (bit_vector)
    requires
        c < 8,
        16 - c < n,
        n <= 15,
    ensures
        (((x0 >> c) as u16) | ((x1 as u16) << ((8 - c) as u16)) | ((x2 as u16) << ((16
            - c) as u16))) & (((1u16 << (n as u16)) - 1) as u16) == ((((x0 as u32) | ((x1 as u32)
            << 8) | ((x2 as u32) << 16)) >> (c as u32)) & (((1u32 << (n as u32)) - 1) as u32))
            as u16,
{
}

proof fn lemma_bits_skip_byte(x0: u8, x1: u8, x2: u8, x3: u8, n: u8)
    by (bit_vector)
    requires
        1 <= n <= 15,
    ensures
        ((((x0 as u32) | ((x1 as u32) << 8) | ((x2 as u32) << 16)) >> 8u32) & (((1u32 << (
        n as u32)) - 1) as u32)) as u16 == ((((x1 as u32) | ((x2 as u32) << 8) | ((x3 as u32)
            << 16)) >> 0u32) & (((1u32 << (n as u32)) - 1) as u32)) as u16,
{
}

/// Reading at bit 8 of a byte sequence is reading at bit 0 of its tail.
proof fn lemma_bits_at_skip(s: Seq<u8>, n: int)
    requires
        1 <= n <= 15,
        s.len() >= 1,
    ensures
        bits_at(s, 8, n) == bits_at(s.skip(1), 0, n),
{
    let t = s.skip(1);
    assert(byte_or_zero(t, 0) == byte_or_zero(s, 1));
    assert(byte_or_zero(t, 1) == byte_or_zero(s, 2));
    lemma_bits_skip_byte(
        byte_or_zero(s, 0),
        byte_or_zero(s, 1),
        byte_or_zero(s, 2),
        byte_or_zero(t, 2),
        n as u8,
    );
}

/// A bit-level reader over a source of bytes.
pub struct BitStream<I: ByteSource> {
    r: I,
    byte: u8,
    // position of the next unread bit in `byte`, least significant first
    bit_cursor: u8,
}

impl<I: ByteSource> BitStream<I> {
    /// The bit cursor lies within the byte in hand, or just past it.
    pub closed spec fn wf(&self) -> bool {
        &&& self.r.wf()
        &&& self.bit_cursor <= 8
    }

    /// The byte in hand, followed by the bytes that the source has yet to
    /// give.
    pub closed spec fn bytes(&self) -> Seq<u8> {
        seq![self.byte] + self.r.remaining()
    }

    /// The position in `bytes()` of the next unread bit, from 0 to 8.
    pub closed spec fn cursor(&self) -> int {
        self.bit_cursor as int
    }

    /// The cursor is at most 8, and a byte is always in hand.
    pub proof fn lemma_cursor_range(&self)
        requires
            self.wf(),
        ensures
            0 <= self.cursor() <= 8,
            self.bytes().len() >= 1,
    {
    }

    /// How many bits are left to read.
    pub open spec fn unread_bits(&self) -> int {
        8 * self.bytes().len() - self.cursor()
    }

    /// Starts a bit stream on a byte source; the first read fetches a byte.
    pub fn new(r: I) -> (bs: Self)
        requires
            r.wf(),
        ensures
            bs.wf(),
            bs.cursor() == 8,
            bs.bytes() == seq![0u8] + r.remaining(),
    {
        Self {
            r,
            byte: 0,
            bit_cursor: 8,  // point to the LSB of the next byte
        }
    }

    /// Reads the next `nbit` bits as a number.
    ///
    /// Returns `None` when fewer than `nbit` bits are left; the source is then
    /// drained, and the last byte it gave stays in hand.
    pub fn next_bits(&mut self, nbit: u8) -> (r: Option<u16>)
        requires
            old(self).wf(),
            1 <= nbit <= 15,
        ensures
            final(self).wf(),
            r == (if old(self).unread_bits() >= nbit {
                Some(bits_at(old(self).bytes(), old(self).cursor(), nbit as int))
            } else {
                None
            }),
            (final(self).bytes(), final(self).cursor()) == bits_after(
                old(self).bytes(),
                old(self).cursor(),
                nbit as int,
            ),
            r matches Some(v) ==> (v as int) < pow2(nbit as nat),
    {
        let ghost all = self.bytes();
        let ghost c0 = self.cursor();
        let ghost j0: int = if self.bit_cursor == 8 { 1 } else { 0 };
        proof {
            lemma_bits_at_bound(all, c0, nbit as int);
        }
        if self.bit_cursor == 8 {
            match self.r.next() {
                Some(b) => {
                    self.byte = b;
                },
                None => {
                    assert(self.bytes() =~= seq![all.last()]);
                    return None;
                },
            }
            self.bit_cursor = 0;
            proof {
                lemma_bits_at_skip(all, nbit as int);
            }
        }
        let ghost base = all.skip(j0);
        let ghost c = self.bit_cursor;
        assert(self.bytes() =~= base);
        assert(self.r.remaining() =~= base.skip(1));
        assert(bits_at(all, c0, nbit as int) == bits_at(base, c as int, nbit as int));
        let mut res: u16 = (self.byte >> self.bit_cursor) as u16;
        let mut bits_fullfilled: u8 = 8 - self.bit_cursor;
        assert((1u16 << (nbit as u16)) >= 1) by (bit_vector)
            requires
                1 <= nbit <= 15,
        ;
        let mask: u16 = (1u16 << (nbit as u16)) - 1;

        if bits_fullfilled >= nbit {
            self.bit_cursor += nbit;
            proof {
                lemma_bits_one_byte(
                    byte_or_zero(base, 0),
                    byte_or_zero(base, 1),
                    byte_or_zero(base, 2),
                    c,
                    nbit,
                );
                assert(self.bytes() =~= all.skip(j0));
            }
            return Some(res & mask);
        }
        let ghost mut k: int = 0;
        while bits_fullfilled < nbit
            invariant
                self.wf(),
                1 <= nbit <= 15,
                c < 8,
                0 <= k <= 2,
                0 <= j0 <= 1,
                all == old(self).bytes(),
                c0 == old(self).cursor(),
                c0 == if j0 == 1 { 8int } else { c as int },
                j0 == 1 ==> c == 0,
                all.len() == base.len() + j0,
                base == all.skip(j0),
                base.len() >= k + 1,
                self.bit_cursor == c,
                self.byte == base[k],
                self.r.remaining() == base.skip(k + 1),
                bits_fullfilled == 8 - c + 8 * k,
                8 - c + 8 * k - 8 < nbit,
                k == 0 ==> res == (byte_or_zero(base, 0) >> c) as u16,
                k == 1 ==> res == ((byte_or_zero(base, 0) >> c) as u16) | ((byte_or_zero(
                    base,
                    1,
                ) as u16) << ((8 - c) as u16)),
                k == 2 ==> res == ((byte_or_zero(base, 0) >> c) as u16) | ((byte_or_zero(
                    base,
                    1,
                ) as u16) << ((8 - c) as u16)) | ((byte_or_zero(base, 2) as u16) << ((16
                    - c) as u16)),
                k >= 1 ==> 8 - c < nbit,
                k >= 2 ==> 16 - c < nbit,
            decreases 32 - bits_fullfilled,
        {
            match self.r.next() {
                Some(b) => {
                    self.byte = b;
                },
                None => {
                    assert(base.skip(k + 1).len() == 0);
                    assert(all.len() == k + 1 + j0);
                    assert(all.last() == base[k]);
                    assert(self.bytes() =~= seq![all.last()]);
                    return None;
                },
            }
            proof {
                assert(self.byte == base[k + 1]);
                assert(self.r.remaining() =~= base.skip(k + 2));
            }
            res |= (self.byte as u16) << (bits_fullfilled as u16);
            bits_fullfilled += 8;
            proof {
                k = k + 1;
            }
        }

        self.bit_cursor = nbit - (bits_fullfilled - 8);
        proof {
            if k == 1 {
                lemma_bits_two_bytes(
                    byte_or_zero(base, 0),
                    byte_or_zero(base, 1),
                    byte_or_zero(base, 2),
                    c,
                    nbit,
                );
            } else {
                lemma_bits_three_bytes(
                    byte_or_zero(base, 0),
                    byte_or_zero(base, 1),
                    byte_or_zero(base, 2),
                    c,
                    nbit,
                );
            }
            assert(self.bytes() =~= all.skip(j0 + k));
        }
        Some(res & mask)
    }
}

} // verus!
