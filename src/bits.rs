//! The bit cursor: serves fields of the compressed stream, least significant bit first.
use vstd::arithmetic::power2::{lemma_pow2_unfold, pow2};
use vstd::prelude::*;

verus! {

/// Why a stream could not be decoded. Every one of them ends the decode.
#[derive(Debug, Clone, Copy, PartialEq, Eq, Structural)]
pub enum InflateError {
    /// A bit or byte was requested past the end of the input.
    Truncated,
    /// A list of code lengths asks for more codes than its bit widths allow.
    OverSubscribed,
    /// No code of length 1 to 15 matched the bits of the stream.
    InvalidCode,
    /// A block header carries the reserved block type 3.
    InvalidBlockType,
    /// A decoded literal/length symbol above 285, or distance symbol above 29.
    InvalidSymbol,
    /// A back-reference reaches before the first byte produced.
    DistanceTooFar,
    /// A dynamic block header declares too many codes, repeats a length where
    /// there is none before, or expands past the declared number of lengths.
    InvalidLengths,
}

/// Bit `i` of the stream: bit `i % 8` of byte `i / 8`.
pub open spec fn bit_at(inp: Seq<u8>, i: int) -> nat {
    ((inp[i / 8] >> ((i % 8) as u8)) & 1u8) as nat
}

/// Number of bits in the stream.
pub open spec fn bit_len(inp: Seq<u8>) -> int {
    (inp.len() * 8) as int
}

/// The `n` bits of the stream from position `pos`, the first one least significant.
pub open spec fn bits_value(inp: Seq<u8>, pos: int, n: nat) -> nat
    decreases n,
{
    if n == 0 {
        0
    } else {
        bits_value(inp, pos, (n - 1) as nat) + pow2((n - 1) as nat) * bit_at(inp, pos + n - 1)
    }
}

/// The first byte boundary at or after bit position `pos`.
pub open spec fn align_up(pos: int) -> int {
    if pos % 8 == 0 {
        pos
    } else {
        pos - pos % 8 + 8
    }
}

pub proof fn lemma_bits_value_bound(inp: Seq<u8>, pos: int, n: nat)
    ensures
        bits_value(inp, pos, n) < pow2(n),
    decreases n,
{
    vstd::arithmetic::power2::lemma2_to64();
    if n > 0 {
        lemma_bits_value_bound(inp, pos, (n - 1) as nat);
        lemma_pow2_unfold(n);
        lemma_bit_at_bound(inp, pos + n - 1);
        let a = bits_value(inp, pos, (n - 1) as nat);
        let w = pow2((n - 1) as nat);
        let b = bit_at(inp, pos + n - 1);
        assert(a + w * b < 2 * w) by (nonlinear_arith)
            requires
                a < w,
                b <= 1,
        ;
    }
}

pub proof fn lemma_bit_at_bound(inp: Seq<u8>, i: int)
    ensures
        bit_at(inp, i) <= 1,
{
    let b = inp[i / 8];
    let s = (i % 8) as u8;
    assert((b >> s) & 1u8 <= 1u8) by (bit_vector);
}

/// A read position in a compressed byte sequence.
pub struct BitCursor<'a> {
    input: &'a [u8],
    byte: usize,
    bit: u32,
}

impl<'a> BitCursor<'a> {
    /// The compressed bytes.
    pub closed spec fn data(&self) -> Seq<u8> {
        self.input@
    }

    /// The number of bits consumed so far.
    pub closed spec fn pos(&self) -> int {
        self.byte * 8 + self.bit
    }

    pub closed spec fn wf(&self) -> bool {
        &&& self.bit < 8
        &&& self.input@.len() <= usize::MAX
        &&& (self.byte < self.input@.len() || (self.byte == self.input@.len() && self.bit == 0))
    }

    pub proof fn lemma_pos_bound(&self)
        requires
            self.wf(),
        ensures
            0 <= self.pos() <= bit_len(self.data()),
    {
    }

    /// A cursor at the first bit of `input`.
    pub fn new(input: &'a [u8]) -> (r: Self)
        ensures
            r.wf(),
            r.data() == input@,
            r.pos() == 0,
    {
        let _ = input.len();
        BitCursor { input, byte: 0, bit: 0 }
    }

    /// Reads one bit.
    pub fn next_bit(&mut self) -> (r: Result<u32, InflateError>)
        requires
            old(self).wf(),
        ensures
            final(self).wf(),
            final(self).data() == old(self).data(),
            match r {
                Ok(b) => old(self).pos() < bit_len(old(self).data()) && b as nat == bit_at(
                    old(self).data(),
                    old(self).pos(),
                ) && final(self).pos() == old(self).pos() + 1,
                Err(e) => old(self).pos() >= bit_len(old(self).data()) && e
                    == InflateError::Truncated,
            },
    {
        if self.byte >= self.input.len() {
            return Err(InflateError::Truncated);
        }
        let b: u8 = self.input[self.byte];
        let s: u8 = self.bit as u8;
        let v: u8 = (b >> s) & 1u8;
        assert(v <= 1u8) by (bit_vector)
            requires
                v == (b >> s) & 1u8,
        ;
        proof {
            let p = self.pos();
            assert(p / 8 == self.byte as int && p % 8 == self.bit as int);
        }
        if self.bit == 7 {
            self.bit = 0;
            self.byte = self.byte + 1;
        } else {
            self.bit = self.bit + 1;
        }
        Ok(v as u32)
    }

    /// Reads the next `need` bits as an integer, the first bit least significant.
    pub fn bits(&mut self, need: u32) -> (r: Result<u32, InflateError>)
        requires
            old(self).wf(),
            need <= 16,
        ensures
            final(self).wf(),
            final(self).data() == old(self).data(),
            match r {
                Ok(v) => old(self).pos() + need <= bit_len(old(self).data()) && v as nat
                    == bits_value(old(self).data(), old(self).pos(), need as nat)
                    && final(self).pos() == old(self).pos() + need,
                Err(e) => old(self).pos() + need > bit_len(old(self).data()) && e
                    == InflateError::Truncated,
            },
    {
        let ghost p0 = self.pos();
        let mut val: u32 = 0;
        let mut weight: u32 = 1;
        let mut k: u32 = 0;
        proof {
            vstd::arithmetic::power2::lemma2_to64();
        }
        while k < need
            invariant
                self.wf(),
                self.data() == old(self).data(),
                p0 == old(self).pos(),
                k <= need <= 16,
                self.pos() == p0 + k,
                weight as nat == pow2(k as nat),
                val as nat == bits_value(self.data(), p0, k as nat),
                val < weight,
                weight <= 65536,
            decreases need - k,
        {
            proof {
                lemma_pow2_unfold((k + 1) as nat);
                vstd::arithmetic::power2::lemma2_to64();
                if k < 15 {
                    vstd::arithmetic::power2::lemma_pow2_strictly_increases(k as nat, 15);
                }
            }
            let ghost before = self.pos();
            let b = match self.next_bit() {
                Ok(b) => b,
                Err(e) => {
                    return Err(e);
                },
            };
            proof {
                lemma_bit_at_bound(self.data(), before);
                assert(before == p0 + k);
            }
            let add: u32 = if b == 1 { weight } else { 0 };
            proof {
                assert(b as nat == bit_at(self.data(), p0 + k));
                if b == 1 {
                    assert(add as nat == pow2(k as nat) * 1);
                } else {
                    assert(b == 0);
                }
                assert(add as nat == pow2(k as nat) * bit_at(self.data(), p0 + k));
            }
            val = val + add;
            weight = weight * 2;
            k = k + 1;
        }
        Ok(val)
    }

    /// Discards the bits left in the current byte.
    pub fn align(&mut self)
        requires
            old(self).wf(),
        ensures
            final(self).wf(),
            final(self).data() == old(self).data(),
            final(self).pos() == align_up(old(self).pos()),
    {
        if self.bit != 0 {
            self.bit = 0;
            self.byte = self.byte + 1;
        }
    }

    /// Reads one whole byte; the cursor must stand on a byte boundary.
    pub fn next_byte(&mut self) -> (r: Result<u8, InflateError>)
        requires
            old(self).wf(),
            old(self).pos() % 8 == 0,
        ensures
            final(self).wf(),
            final(self).data() == old(self).data(),
            match r {
                Ok(c) => old(self).pos() + 8 <= bit_len(old(self).data()) && c == old(
                    self,
                ).data()[old(self).pos() / 8] && final(self).pos() == old(self).pos() + 8,
                Err(e) => old(self).pos() + 8 > bit_len(old(self).data()) && e
                    == InflateError::Truncated,
            },
    {
        if self.byte >= self.input.len() {
            return Err(InflateError::Truncated);
        }
        let c = self.input[self.byte];
        self.byte = self.byte + 1;
        Ok(c)
    }
}

} // verus!
