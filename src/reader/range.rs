use vstd::prelude::*;

use vstd::arithmetic::power2::pow2;
use crate::consts::{MODEL_TOTAL_BITS, MOVE_BITS, PROBABILITY_LIMIT, TOP_VALUE};
use crate::error::Error;
use super::stream::Stream;

verus! {

/// The state of a range decoder as plain values.
pub struct RangeModel {
    pub range: u32,
    pub code: u32,
    pub seeded: bool,
}

/// A probability is strictly between zero and `2048`.
pub open spec fn valid_prob(p: u16) -> bool {
    0 < p < PROBABILITY_LIMIT
}

/// The split point of the range for a bit whose probability of being zero is `p / 2048`.
pub open spec fn bound(range: u32, p: u16) -> int {
    (range as int / 2048) * (p as int)
}

/// A probability after a bit was decoded with it: pulled towards the bit that came.
pub open spec fn updated_prob(p: u16, bit: bool) -> u16 {
    if bit {
        (p - p / 32) as u16
    } else {
        (p + (2048 - p) / 32) as u16
    }
}

/// Shifts one input byte in when the range fell below `2^24`; `None` if the input is exhausted then.
pub open spec fn normalized(range: int, code: int, seeded: bool, input: Seq<u8>) -> Option<(RangeModel, Seq<u8>)> {
    if range < TOP_VALUE {
        if input.len() == 0 {
            None
        } else {
            Some((RangeModel { range: (range * 256) as u32, code: (code * 256 + input[0]) as u32, seeded }, input.skip(1)))
        }
    } else {
        Some((RangeModel { range: range as u32, code: code as u32, seeded }, input))
    }
}

/// One modeled bit: the new decoder state, the updated probability, the bit and the rest of the input.
pub open spec fn bit_step(m: RangeModel, p: u16, input: Seq<u8>) -> Option<(RangeModel, u16, bool, Seq<u8>)> {
    let b = bound(m.range, p);
    let bit = m.code >= b;
    let r1 = if bit { m.range - b } else { b };
    let c1 = if bit { m.code - b } else { m.code as int };
    match normalized(r1, c1, m.seeded, input) {
        Some((n, rest)) => Some((n, updated_prob(p, bit), bit, rest)),
        None => None,
    }
}

/// One direct bit: the range halves and the bit says whether the code was in its upper half.
/// `None` when the code lands on the range (a corrupted stream) or the input is exhausted.
pub open spec fn direct_step(m: RangeModel, input: Seq<u8>) -> Option<(RangeModel, bool, Seq<u8>)> {
    let r1 = m.range / 2;
    let bit = m.code >= r1;
    let c1 = if bit { m.code - r1 } else { m.code as int };
    if c1 == r1 {
        None
    } else {
        match normalized(r1 as int, c1, m.seeded, input) {
            Some((n, rest)) => Some((n, bit, rest)),
            None => None,
        }
    }
}

/// `k` direct bits, most significant first, appended to `acc`.
pub open spec fn direct_bits(m: RangeModel, input: Seq<u8>, k: nat, acc: nat) -> Option<(RangeModel, nat, Seq<u8>)>
    decreases k,
{
    if k == 0 {
        Some((m, acc, input))
    } else {
        match direct_step(m, input) {
            Some((n, bit, rest)) => direct_bits(n, rest, (k - 1) as nat, acc * 2 + if bit { 1nat } else { 0nat }),
            None => None,
        }
    }
}

/// The value that four bytes give, most significant first.
pub open spec fn be_u32(b: Seq<u8>) -> int {
    ((b[0] as int * 256 + b[1] as int) * 256 + b[2] as int) * 256 + b[3] as int
}

/// A range decoder.
#[derive(Debug, Clone, Copy, PartialEq, Eq, Structural)]
pub struct Range {
    range: u32,
    code: u32,
    seeded: bool,
}

impl View for Range {
    type V = RangeModel;

    closed spec fn view(&self) -> RangeModel {
        RangeModel { range: self.range, code: self.code, seeded: self.seeded }
    }
}

impl Range {
    /// The code stays strictly below the range.
    pub open spec fn wf(&self) -> bool {
        self@.code < self@.range
    }

    /// Creates an empty unseeded range.
    pub fn empty() -> (r: Range)
        ensures
            r@ == (RangeModel { range: 0xffff_ffff, code: 0, seeded: false }),
            r.wf(),
    {
        Range { range: 0xffff_ffff, code: 0, seeded: false }
    }

    /// Creates a range seeded with the given values.
    pub fn new(range: u32, code: u32) -> (r: Range)
        ensures
            r@ == (RangeModel { range, code, seeded: true }),
    {
        Range { range, code, seeded: true }
    }

    /// Checks if the decoder is finished.
    pub fn is_finished(&self) -> (r: bool)
        ensures
            r == (self@.code == 0),
    {
        self.code == 0
    }

    /// Checks if the range is seeded.
    pub fn is_seeded(&self) -> (r: bool)
        ensures
            r == self@.seeded,
    {
        self.seeded
    }

    /// Seeds the decoder from the given stream: a zero control byte, then the code, most
    /// significant byte first.
    pub fn seed(&mut self, stream: &mut Stream) -> (r: Result<(), Error>)
        requires
            old(self)@ == (RangeModel { range: 0xffff_ffff, code: 0, seeded: false }),
            old(stream).wf(),
        ensures
            final(stream).wf(),
            final(self).wf(),
            r is Err ==> final(self)@ == old(self)@,
            old(stream)@.len() < 5 ==> r == Err::<(), Error>(Error::IO),
            old(stream)@.len() >= 5 ==> {
                let code = be_u32(old(stream)@.subrange(1, 5));
                &&& final(stream)@ == old(stream)@.skip(5)
                &&& (old(stream)@[0] != 0 || code == 0xffff_ffff) ==> r == Err::<(), Error>(Error::Corrupted)
                &&& (old(stream)@[0] == 0 && code != 0xffff_ffff) ==> r is Ok
                    && final(self)@ == (RangeModel { range: 0xffff_ffff, code: code as u32, seeded: true })
            },
    {
        let ghost input = stream@;
        let control = match stream.read_u8() {
            Some(b) => b,
            None => return Err(Error::IO),
        };
        let mut code: u32 = 0;
        let mut i: usize = 0;
        while i < 4
            invariant
                stream.wf(),
                0 <= i <= 4,
                input.len() >= 1,
                control == input[0],
                input == old(stream)@,
                self.wf(),
                self@ == old(self)@,
                input.len() >= 1 + i,
                stream@ == input.skip(1 + i),
                code as int == (if i == 0 { 0 } else if i == 1 { input[1] as int } else if i == 2 {
                    input[1] as int * 256 + input[2] as int
                } else if i == 3 {
                    (input[1] as int * 256 + input[2] as int) * 256 + input[3] as int
                } else {
                    be_u32(input.subrange(1, 5))
                }),
            decreases 4 - i,
        {
            let b = match stream.read_u8() {
                Some(b) => b,
                None => return Err(Error::IO),
            };
            proof {
                assert(input.skip(1 + i).skip(1) =~= input.skip(1 + i + 1));
                assert(code < 0x0100_0000) by {
                    if i == 3 {
                        assert(code <= (255 * 256 + 255) * 256 + 255);
                    }
                }
                let c = code;
                assert((c << 8u32) | (b as u32) == c * 256 + b) by (bit_vector)
                    requires
                        c < 0x0100_0000;
            }
            code = (code << 8) | (b as u32);
            i = i + 1;
        }
        if control != 0 || code == self.range {
            return Err(Error::Corrupted);
        }
        self.code = code;
        self.seeded = true;
        Ok(())
    }

    /// Shifts in one byte of the stream when the range has become too small.
    fn normalize(&mut self, stream: &mut Stream) -> (r: Result<(), Error>)
        requires
            old(self).wf(),
            old(stream).wf(),
        ensures
            final(stream).wf(),
            final(self).wf(),
            final(self)@.seeded == old(self)@.seeded,
            match normalized(old(self)@.range as int, old(self)@.code as int, old(self)@.seeded, old(stream)@) {
                Some((m, rest)) => r is Ok && final(self)@ == m && final(stream)@ == rest,
                None => r == Err::<(), Error>(Error::Corrupted),
            },
    {
        if self.range < TOP_VALUE {
            let b = match stream.read_u8() {
                Some(b) => b,
                None => return Err(Error::Corrupted),
            };
            let r = self.range;
            let c = self.code;
            assert((r << 8u32) == r * 256 && (c << 8u32) | (b as u32) == c * 256 + b
                && c * 256 + b < r * 256) by (bit_vector)
                requires
                    c < r,
                    r < 0x0100_0000,
            ;
            self.range = r << 8;
            self.code = (c << 8) | (b as u32);
        }
        Ok(())
    }

    /// Extracts the amount of bits directly.
    pub fn direct(&mut self, stream: &mut Stream, bits: usize) -> (r: Result<usize, Error>)
        requires
            old(self).wf(),
            old(stream).wf(),
            bits <= 32,
        ensures
            final(stream).wf(),
            final(self).wf(),
            final(self)@.seeded == old(self)@.seeded,
            match direct_bits(old(self)@, old(stream)@, bits as nat, 0) {
                Some((m, v, rest)) => v < pow2(bits as nat) && r == Ok::<usize, Error>(v as usize) && final(self)@ == m
                    && final(stream)@ == rest,
                None => r == Err::<usize, Error>(Error::Corrupted),
            },
            r matches Ok(v) ==> v < pow2(bits as nat),
    {
        let mut result: u64 = 0;
        let mut i: usize = 0;
        proof {
            vstd::arithmetic::power2::lemma2_to64();
        }
        while i < bits
            invariant
                self.wf(),
                self@.seeded == old(self)@.seeded,
                stream.wf(),
                i <= bits <= 32,
                result < pow2(i as nat),
                direct_bits(old(self)@, old(stream)@, bits as nat, 0)
                    == direct_bits(self@, stream@, (bits - i) as nat, result as nat),
            decreases bits - i,
        {
            let r0 = self.range;
            let c0 = self.code;
            let r1 = r0 >> 1;
            let c1 = c0.wrapping_sub(r1);
            let t = 0u32.wrapping_sub(c1 >> 31);
            let c2 = c1.wrapping_add(r1 & t);
            assert(r1 == r0 / 2 && (c0 >= r1 ==> t == 0 && c2 == c0 - r1)
                && (c0 < r1 ==> t == 0xffff_ffff && c2 == c0)) by (bit_vector)
                requires
                    c0 < r0,
                    r1 == r0 >> 1,
                    c1 == c0.wrapping_sub(r1),
                    t == 0u32.wrapping_sub(c1 >> 31),
                    c2 == c1.wrapping_add(r1 & t),
            ;
            if c2 == r1 {
                return Err(Error::Corrupted);
            }
            self.range = r1;
            self.code = c2;
            let n = self.normalize(stream);
            if n.is_err() {
                return Err(Error::Corrupted);
            }
            let bit: u64 = if t == 0 { 1 } else { 0 };
            proof {
                vstd::arithmetic::power2::lemma_pow2_unfold((i + 1) as nat);
                vstd::arithmetic::power2::lemma2_to64();
                if i + 1 < 32 {
                    vstd::arithmetic::power2::lemma_pow2_strictly_increases((i + 1) as nat, 32);
                }
            }
            result = result * 2 + bit;
            i = i + 1;
        }
        proof {
            vstd::arithmetic::power2::lemma_pow2_strictly_increases(bits as nat, 64);
            vstd::arithmetic::power2::lemma2_to64();
        }
        Ok(result as usize)
    }

    /// Extracts a bit using the probabilistic model, and updates the model.
    pub fn probabilistic(&mut self, stream: &mut Stream, prob: &mut u16) -> (r: Result<bool, Error>)
        requires
            old(self).wf(),
            old(stream).wf(),
            valid_prob(*old(prob)),
        ensures
            final(stream).wf(),
            final(self).wf(),
            final(self)@.seeded == old(self)@.seeded,
            valid_prob(*final(prob)),
            match bit_step(old(self)@, *old(prob), old(stream)@) {
                Some((m, p, bit, rest)) => r == Ok::<bool, Error>(bit) && final(self)@ == m
                    && *final(prob) == p && final(stream)@ == rest,
                None => r == Err::<bool, Error>(Error::Corrupted),
            },
    {
        let v = *prob;
        let r0 = self.range;
        let c0 = self.code;
        let q = r0 >> MODEL_TOTAL_BITS;
        assert(q == r0 / 2048) by (bit_vector)
            requires
                q == r0 >> 11u32,
        ;
        proof {
            vstd::arithmetic::div_mod::lemma_fundamental_div_mod(r0 as int, 2048);
            assert(q * v < r0) by (nonlinear_arith)
                requires
                    q * 2048 <= r0,
                    0 < v < 2048,
                    r0 > 0,
                    q >= 0,
            {
                assert(q * v <= q * 2047);
            }
        }
        let b = q * (v as u32);
        let bit;
        let nv;
        if c0 < b {
            let w = PROBABILITY_LIMIT - v;
            assert(w >> 5u16 == w / 32) by (bit_vector);
            nv = v + (w >> MOVE_BITS);
            self.range = b;
            bit = false;
        } else {
            assert(v >> 5u16 == v / 32) by (bit_vector);
            nv = v - (v >> MOVE_BITS);
            self.code = c0 - b;
            self.range = r0 - b;
            bit = true;
        }
        *prob = nv;
        self.normalize(stream)?;
        Ok(bit)
    }
}

} // verus!
