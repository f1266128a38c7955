//! An LSB-first bit reader over a byte buffer.

use vstd::prelude::*;
use vstd::arithmetic::power2::{lemma2_to64, lemma_pow2_pos, lemma_pow2_unfold, pow2};
use vstd::arithmetic::div_mod::lemma_fundamental_div_mod_converse;
use vstd::bits::{lemma_u32_shl_is_mul, lemma_u32_shr_is_div};
use crate::inflate::InflateError;

verus! {

/// The bit at position `i` of the stream that `data` holds: bytes in order,
/// within each byte the least significant bit first.
pub open spec fn bit_at(data: Seq<u8>, i: int) -> nat
    recommends
        0 <= i < 8 * data.len(),
{
    ((data[i / 8] as nat) / bit_weight(i % 8)) % 2
}

/// What bit `k` of a byte is worth: 1 for bit 0, 128 for bit 7.
pub open spec fn bit_weight(k: int) -> nat {
    if k <= 0 {
        1
    } else if k == 1 {
        2
    } else if k == 2 {
        4
    } else if k == 3 {
        8
    } else if k == 4 {
        16
    } else if k == 5 {
        32
    } else if k == 6 {
        64
    } else {
        128
    }
}

/// The number that the `n` bits from position `pos` on spell, the first bit
/// being the least significant.
pub open spec fn bits_value(data: Seq<u8>, pos: int, n: nat) -> nat
    decreases n,
{
    if n == 0 {
        0
    } else {
        bit_at(data, pos) + 2 * bits_value(data, pos + 1, (n - 1) as nat)
    }
}

/// `n` bits spell a number below `2^n`.
pub proof fn lemma_bits_value_bound(data: Seq<u8>, pos: int, n: nat)
    ensures
        bits_value(data, pos, n) < pow2(n),
    decreases n,
{
    if n == 0 {
        lemma2_to64();
    } else {
        lemma_bits_value_bound(data, pos + 1, (n - 1) as nat);
        lemma_pow2_unfold(n);
    }
}

/// The first `m` of `m + k` bits are the low part of their number, the other
/// `k` the high part.
pub proof fn lemma_bits_value_split(data: Seq<u8>, pos: int, m: nat, k: nat)
    ensures
        bits_value(data, pos, m + k) == bits_value(data, pos, m) + pow2(m) * bits_value(
            data,
            pos + m,
            k,
        ),
    decreases m,
{
    if m == 0 {
        lemma2_to64();
    } else {
        let rest = bits_value(data, pos + m, k);
        let low = bits_value(data, pos + 1, (m - 1) as nat);
        lemma_bits_value_split(data, pos + 1, (m - 1) as nat, k);
        lemma_pow2_unfold(m);
        assert(2 * (low + pow2((m - 1) as nat) * rest) == 2 * low + pow2(m) * rest)
            by (nonlinear_arith)
            requires
                pow2(m) == 2 * pow2((m - 1) as nat),
        ;
        assert((m + k - 1) as nat == (m - 1) as nat + k);
    }
}

/// Eight bits from a byte boundary spell the byte there.
pub proof fn lemma_bits_value_byte(data: Seq<u8>, k: int)
    requires
        0 <= k < data.len(),
    ensures
        bits_value(data, 8 * k, 8) == data[k],
{
    let b = data[k];
    let p = 8 * k;
    assert forall|j: int| 0 <= j < 8 implies #[trigger] bit_at(data, p + j) == ((b as nat)
        / bit_weight(j)) % 2 by {
        assert((8 * k + j) / 8 == k);
        assert((8 * k + j) % 8 == j);
    }
    let b0 = bit_at(data, p + 0);
    let b1 = bit_at(data, p + 1);
    let b2 = bit_at(data, p + 2);
    let b3 = bit_at(data, p + 3);
    let b4 = bit_at(data, p + 4);
    let b5 = bit_at(data, p + 5);
    let b6 = bit_at(data, p + 6);
    let b7 = bit_at(data, p + 7);
    assert(b0 == (b / 1) % 2 && b1 == (b / 2) % 2 && b2 == (b / 4) % 2 && b3 == (b / 8) % 2);
    assert(b4 == (b / 16) % 2 && b5 == (b / 32) % 2 && b6 == (b / 64) % 2 && b7 == (b / 128) % 2);
    assert(b == (b / 1) % 2 + 2 * ((b / 2) % 2) + 4 * ((b / 4) % 2) + 8 * ((b / 8) % 2) + 16 * ((b
        / 16) % 2) + 32 * ((b / 32) % 2) + 64 * ((b / 64) % 2) + 128 * ((b / 128) % 2))
        by (bit_vector);
    assert(bits_value(data, p + 8, 0) == 0);
    assert(bits_value(data, p + 7, 1) == b7);
    assert(bits_value(data, p + 6, 2) == b6 + 2 * bits_value(data, p + 7, 1));
    assert(bits_value(data, p + 5, 3) == b5 + 2 * bits_value(data, p + 6, 2));
    assert(bits_value(data, p + 4, 4) == b4 + 2 * bits_value(data, p + 5, 3));
    assert(bits_value(data, p + 3, 5) == b3 + 2 * bits_value(data, p + 4, 4));
    assert(bits_value(data, p + 2, 6) == b2 + 2 * bits_value(data, p + 3, 5));
    assert(bits_value(data, p + 1, 7) == b1 + 2 * bits_value(data, p + 2, 6));
    assert(bits_value(data, p + 0, 8) == b0 + 2 * bits_value(data, p + 1, 7));
}

/// Sixteen bits from a byte boundary spell the two bytes there, the low one
/// first.
pub proof fn lemma_bits_value_two_bytes(data: Seq<u8>, k: int)
    requires
        0 <= k,
        k + 1 < data.len(),
    ensures
        bits_value(data, 8 * k, 16) == data[k] + 256 * data[k + 1],
{
    lemma2_to64();
    lemma_bits_value_split(data, 8 * k, 8, 8);
    lemma_bits_value_byte(data, k);
    lemma_bits_value_byte(data, k + 1);
}

/// Bits that lie inside `data` are the same whatever follows `data`.
pub proof fn lemma_bits_value_extends(data: Seq<u8>, more: Seq<u8>, pos: int, n: nat)
    requires
        0 <= pos,
        pos + n <= 8 * data.len(),
    ensures
        bits_value(data + more, pos, n) == bits_value(data, pos, n),
    decreases n,
{
    if n > 0 {
        assert((data + more)[pos / 8] == data[pos / 8]);
        lemma_bits_value_extends(data, more, pos + 1, (n - 1) as nat);
    }
}

/// A cursor into a byte buffer that hands out bit fields, least significant
/// bit first, through a small accumulator.
pub struct Bitstream {
    data: Vec<u8>,
    pos: usize,
    bit_buff: u32,
    bit_buff_count: usize,
}

impl Bitstream {
    /// The bytes that the stream reads.
    pub closed spec fn bytes(&self) -> Seq<u8> {
        self.data@
    }

    /// How many bits have been consumed.
    pub closed spec fn bit_pos(&self) -> int {
        8 * self.pos - self.bit_buff_count
    }

    /// How many unread bits the accumulator holds.
    pub closed spec fn buffered(&self) -> nat {
        self.bit_buff_count as nat
    }

    /// The accumulator holds exactly the `buffered()` bits that follow `bit_pos()`.
    pub closed spec fn wf(&self) -> bool {
        &&& self.pos <= self.data.len()
        &&& self.bit_buff_count <= 24
        &&& self.bit_buff_count <= 8 * self.pos
        &&& self.bit_buff as nat == bits_value(
            self.data@,
            8 * self.pos - self.bit_buff_count,
            self.bit_buff_count as nat,
        )
    }

    /// What a well-formed stream guarantees about its position.
    pub proof fn lemma_wf_bounds(&self)
        requires
            self.wf(),
        ensures
            0 <= self.bit_pos(),
            self.bit_pos() + self.buffered() <= 8 * self.bytes().len(),
            self.buffered() <= 24,
    {
    }

    /// A stream at the start of `data`.
    pub fn new(data: Vec<u8>) -> (s: Self)
        ensures
            s.wf(),
            s.bytes() == data@,
            s.bit_pos() == 0,
            s.buffered() == 0,
    {
        Bitstream { data, pos: 0, bit_buff: 0, bit_buff_count: 0 }
    }

    /// Moves the next byte of the input to the top of the accumulator.
    fn get_byte(&mut self) -> (r: Result<u8, InflateError>)
        requires
            old(self).wf(),
            old(self).bit_buff_count < 16,
        ensures
            final(self).wf(),
            final(self).data == old(self).data,
            final(self).bit_pos() == old(self).bit_pos(),
            match r {
                Ok(b) => old(self).pos < old(self).data.len() && final(self).bit_buff_count
                    == old(self).bit_buff_count + 8,
                Err(e) => e == InflateError::Truncated && old(self).pos >= old(self).data.len()
                    && *final(self) == *old(self),
            },
    {
        if self.data.len() > self.pos {
            let value = self.data[self.pos];
            let count: u32 = self.bit_buff_count as u32;
            let buff = self.bit_buff;
            let shifted: u32 = (value as u32) << count;
            proof {
                let q = 8 * self.pos - self.bit_buff_count;
                lemma2_to64();
                lemma_bits_value_bound(self.data@, q, count as nat);
                lemma_pow2_pos(count as nat);
                assert(pow2(count as nat) <= pow2(15)) by {
                    if count < 15 {
                        vstd::arithmetic::power2::lemma_pow2_strictly_increases(count as nat, 15);
                    }
                }
                assert(1 * pow2(count as nat) <= u32::MAX);
                assert(value * pow2(count as nat) <= u32::MAX) by (nonlinear_arith)
                    requires
                        value <= 255,
                        pow2(count as nat) <= 0x8000,
                ;
                lemma_u32_shl_is_mul(1u32, count);
                lemma_u32_shl_is_mul(value as u32, count);
                assert((buff | shifted) == buff + shifted) by (bit_vector)
                    requires
                        count < 16,
                        buff < (1u32 << count),
                        shifted == (value as u32) << count,
                ;
                lemma_bits_value_split(self.data@, q, count as nat, 8);
                lemma_bits_value_byte(self.data@, self.pos as int);
                assert(pow2(count as nat) * (value as nat) == (value as nat) * pow2(count as nat))
                    by (nonlinear_arith);
            }
            self.bit_buff = buff | shifted;
            self.bit_buff_count += 8;
            self.pos += 1;
            Ok(value)
        } else {
            Err(InflateError::Truncated)
        }
    }

    /// Makes sure that the accumulator holds at least `n` bits.  Fails when
    /// the input has fewer than `n` bits left.
    pub fn needbits(&mut self, n: usize) -> (r: Result<(), InflateError>)
        requires
            old(self).wf(),
            n <= 16,
        ensures
            final(self).wf(),
            final(self).bytes() == old(self).bytes(),
            final(self).bit_pos() == old(self).bit_pos(),
            match r {
                Ok(_) => {
                    &&& final(self).buffered() >= n
                    &&& old(self).bit_pos() + n <= 8 * old(self).bytes().len()
                },
                Err(e) => {
                    &&& e == InflateError::Truncated
                    &&& old(self).bit_pos() + n > 8 * old(self).bytes().len()
                },
            },
    {
        while self.bit_buff_count < n
            invariant
                self.wf(),
                n <= 16,
                self.data == old(self).data,
                self.bit_pos() == old(self).bit_pos(),
            decreases self.data.len() - self.pos,
        {
            match self.get_byte() {
                Ok(_) => {},
                Err(e) => {
                    return Err(e);
                },
            }
        }
        Ok(())
    }

    /// Discards the `n` lowest bits of the accumulator.
    pub fn dumpbits(&mut self, n: usize)
        requires
            old(self).wf(),
            n <= old(self).buffered(),
        ensures
            final(self).wf(),
            final(self).bytes() == old(self).bytes(),
            final(self).bit_pos() == old(self).bit_pos() + n,
            final(self).buffered() == old(self).buffered() - n,
    {
        proof {
            let q = 8 * self.pos - self.bit_buff_count;
            let c = self.bit_buff_count as nat;
            lemma_bits_value_split(self.data@, q, n as nat, (c - n) as nat);
            lemma_bits_value_bound(self.data@, q, n as nat);
            lemma_pow2_pos(n as nat);
            lemma_u32_shr_is_div(self.bit_buff, n as u32);
            assert(pow2(n as nat) * bits_value(self.data@, q + n, (c - n) as nat) == bits_value(
                self.data@,
                q + n,
                (c - n) as nat,
            ) * pow2(n as nat)) by (nonlinear_arith);
            lemma_fundamental_div_mod_converse(
                self.bit_buff as int,
                pow2(n as nat) as int,
                bits_value(self.data@, q + n, (c - n) as nat) as int,
                bits_value(self.data@, q, n as nat) as int,
            );
        }
        self.bit_buff = self.bit_buff >> (n as u32);
        self.bit_buff_count -= n;
    }

    /// The `n` lowest bits of the accumulator, which stay where they are.
    pub fn getbits(&self, n: usize) -> (v: u16)
        requires
            self.wf(),
            n <= 16,
            n <= self.buffered(),
        ensures
            v == bits_value(self.bytes(), self.bit_pos(), n as nat),
    {
        if n == 0 {
            return 0;
        }
        let buff = self.bit_buff;
        let width: u32 = n as u32;
        proof {
            lemma2_to64();
            lemma_pow2_pos(n as nat);
            assert(pow2(n as nat) <= pow2(16)) by {
                if n < 16 {
                    vstd::arithmetic::power2::lemma_pow2_strictly_increases(n as nat, 16);
                }
            }
            lemma_u32_shl_is_mul(1u32, width);
        }
        let mask: u32 = (1u32 << width) - 1;
        let low: u32 = buff & mask;
        proof {
            let q = 8 * self.pos - self.bit_buff_count;
            let c = self.bit_buff_count as nat;
            let high = bits_value(self.data@, q + n, (c - n) as nat);
            lemma_bits_value_split(self.data@, q, n as nat, (c - n) as nat);
            lemma_bits_value_bound(self.data@, q, n as nat);
            assert(mask == vstd::bits::low_bits_mask(n as nat));
            vstd::bits::lemma_u32_low_bits_mask_is_mod(buff, n as nat);
            assert(pow2(n as nat) * high == high * pow2(n as nat)) by (nonlinear_arith);
            lemma_fundamental_div_mod_converse(
                buff as int,
                pow2(n as nat) as int,
                high as int,
                bits_value(self.data@, q, n as nat) as int,
            );
        }
        low as u16
    }

    /// Reads `n` bits: `needbits`, `getbits`, `dumpbits`.
    pub fn readbits(&mut self, n: usize) -> (r: Result<u16, InflateError>)
        requires
            old(self).wf(),
            n <= 16,
        ensures
            final(self).wf(),
            final(self).bytes() == old(self).bytes(),
            match r {
                Ok(v) => {
                    &&& old(self).bit_pos() + n <= 8 * old(self).bytes().len()
                    &&& v == bits_value(old(self).bytes(), old(self).bit_pos(), n as nat)
                    &&& final(self).bit_pos() == old(self).bit_pos() + n
                },
                Err(e) => {
                    &&& e == InflateError::Truncated
                    &&& old(self).bit_pos() + n > 8 * old(self).bytes().len()
                    &&& final(self).bit_pos() == old(self).bit_pos()
                },
            },
    {
        match self.needbits(n) {
            Ok(_) => {},
            Err(e) => {
                return Err(e);
            },
        }
        let v = self.getbits(n);
        self.dumpbits(n);
        Ok(v)
    }

    /// Discards what is left of the byte that the stream stands in.
    pub fn align_to_byte(&mut self)
        requires
            old(self).wf(),
        ensures
            final(self).wf(),
            final(self).bytes() == old(self).bytes(),
            final(self).bit_pos() == next_byte_boundary(old(self).bit_pos()),
    {
        let partial = self.bit_buff_count % 8;
        self.dumpbits(partial);
    }
}

/// The first multiple of eight that is not below `pos`.
pub open spec fn next_byte_boundary(pos: int) -> int {
    pos + (8 - pos % 8) % 8
}

} // verus!
