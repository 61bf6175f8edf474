use vstd::prelude::*;
use vstd::arithmetic::power2::{pow2, lemma2_to64, lemma_pow2_unfold, lemma_pow2_strictly_increases};

use crate::consts::PROBABILITY_INITIAL_VALUE;
use crate::error::Error;
use super::range::{Range, RangeModel, bit_step, valid_prob};
use super::stream::Stream;

verus! {

/// Every probability of the table lies strictly between zero and `2048`.
pub open spec fn all_valid(s: Seq<u16>) -> bool {
    forall|i: int| 0 <= i < s.len() ==> valid_prob(#[trigger] s[i])
}

/// A table of `n` probabilities, each one half.
pub open spec fn initial_table(n: nat) -> Seq<u16> {
    Seq::new(n, |i: int| PROBABILITY_INITIAL_VALUE)
}

/// `k` modeled bits of a reverse bit-tree walk rooted at `base`: the walk is at node `idx`,
/// the next bit goes to position `i` of `acc`.
pub open spec fn reverse_bits(
    m: RangeModel,
    probs: Seq<u16>,
    base: int,
    input: Seq<u8>,
    k: nat,
    i: nat,
    idx: nat,
    acc: nat,
) -> Option<(RangeModel, Seq<u16>, nat, Seq<u8>)>
    decreases k,
{
    if k == 0 {
        Some((m, probs, acc, input))
    } else {
        match bit_step(m, probs[base + idx], input) {
            Some((n, p, bit, rest)) => reverse_bits(
                n,
                probs.update(base + idx, p),
                base,
                rest,
                (k - 1) as nat,
                i + 1,
                idx * 2 + if bit { 1nat } else { 0nat },
                acc + if bit { pow2(i) } else { 0nat },
            ),
            None => None,
        }
    }
}

/// Table of probabilities.
#[derive(Clone, Debug)]
pub struct Probabilities {
    buffer: Vec<u16>,
    size: usize,
}

impl View for Probabilities {
    type V = Seq<u16>;

    closed spec fn view(&self) -> Seq<u16> {
        self.buffer@
    }
}

impl Probabilities {
    /// The table has its size and holds valid probabilities only.
    pub closed spec fn wf(&self) -> bool {
        &&& self.buffer@.len() == self.size
        &&& all_valid(self.buffer@)
    }

    /// Creates a new table of the given size.
    pub fn new(size: usize) -> (r: Probabilities)
        ensures
            r.wf(),
            r@ == initial_table(size as nat),
    {
        let buffer = vec![PROBABILITY_INITIAL_VALUE; size];
        assert(buffer@ =~= initial_table(size as nat));
        Probabilities { buffer, size }
    }

    /// A well-formed table holds valid probabilities only.
    pub proof fn lemma_valid(&self)
        requires
            self.wf(),
        ensures
            all_valid(self@),
    {
    }

    /// The number of probabilities in the table.
    pub fn len(&self) -> (r: usize)
        requires
            self.wf(),
        ensures
            r == self@.len(),
    {
        self.size
    }

    /// Decodes one bit with the probability at `i`, and updates it.
    pub fn bit(&mut self, i: usize, stream: &mut Stream, range: &mut Range) -> (r: Result<bool, Error>)
        requires
            old(self).wf(),
            old(range).wf(),
            old(stream).wf(),
            i < old(self)@.len(),
        ensures
            final(self).wf(),
            final(range).wf(),
            final(range)@.seeded == old(range)@.seeded,
            final(stream).wf(),
            final(self)@.len() == old(self)@.len(),
            match bit_step(old(range)@, old(self)@[i as int], old(stream)@) {
                Some((m, p, bit, rest)) => r == Ok::<bool, Error>(bit) && final(range)@ == m
                    && final(self)@ == old(self)@.update(i as int, p) && final(stream)@ == rest,
                None => r == Err::<bool, Error>(Error::Corrupted),
            },
    {
        let r = range.probabilistic(stream, &mut self.buffer[i]);
        assert(all_valid(self.buffer@)) by {
            assert forall|j: int| 0 <= j < self.buffer@.len() implies valid_prob(#[trigger] self.buffer@[j]) by {
                if j != i {
                    assert(self.buffer@[j] == old(self).buffer@[j]);
                }
            }
        }
        r
    }
}

/// Decodes a `bits`-bit value whose least significant bit comes first, with the bit tree
/// rooted at `base`.
pub fn reverse(stream: &mut Stream, probs: &mut Probabilities, base: usize, bits: usize, range: &mut Range) -> (r: Result<usize, Error>)
    requires
        old(probs).wf(),
        old(range).wf(),
        old(stream).wf(),
        bits < 32,
        base + pow2(bits as nat) <= old(probs)@.len(),
    ensures
        final(probs).wf(),
        final(range).wf(),
        final(range)@.seeded == old(range)@.seeded,
        final(stream).wf(),
        final(probs)@.len() == old(probs)@.len(),
        match reverse_bits(old(range)@, old(probs)@, base as int, old(stream)@, bits as nat, 0, 1, 0) {
            Some((m, p, v, rest)) => v < pow2(bits as nat) && r == Ok::<usize, Error>(v as usize) && final(range)@ == m
                && final(probs)@ == p && final(stream)@ == rest,
            None => r == Err::<usize, Error>(Error::Corrupted),
        },
        r matches Ok(v) ==> v < pow2(bits as nat),
{
    let mut m: usize = 1;
    let mut distance: usize = 0;
    let mut i: usize = 0;
    proof {
        lemma2_to64();
    }
    while i < bits
        invariant
            probs.wf(),
            range.wf(),
            range@.seeded == old(range)@.seeded,
            stream.wf(),
            i <= bits < 32,
            probs@.len() == old(probs)@.len(),
            base + pow2(bits as nat) <= probs@.len(),
            pow2(i as nat) <= m < pow2((i + 1) as nat),
            distance < pow2(i as nat),
            reverse_bits(old(range)@, old(probs)@, base as int, old(stream)@, bits as nat, 0, 1, 0)
                == reverse_bits(range@, probs@, base as int, stream@, (bits - i) as nat, i as nat, m as nat, distance as nat),
        decreases bits - i,
    {
        proof {
            lemma_pow2_unfold((i + 1) as nat);
            lemma_pow2_unfold((i + 2) as nat);
            if i + 1 < bits {
                lemma_pow2_strictly_increases((i + 1) as nat, bits as nat);
            }
            lemma_pow2_strictly_increases(bits as nat, 32);
            lemma2_to64();
            vstd::bits::lemma_usize_shl_is_mul(1, i);
        }
        let bit = probs.bit(base + m, stream, range)?;
        m = m * 2;
        if bit {
            m = m + 1;
            distance = distance + (1usize << i);
        }
        i = i + 1;
    }
    Ok(distance)
}

} // verus!
