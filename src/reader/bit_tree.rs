use vstd::prelude::*;
use vstd::arithmetic::power2::{pow2, lemma2_to64, lemma_pow2_unfold, lemma_pow2_strictly_increases};

use crate::error::Error;
use super::probabilities::{Probabilities, all_valid, initial_table, reverse_bits};
use super::range::{Range, RangeModel, bit_step};
use super::stream::Stream;

verus! {

/// `k` modeled bits of a bit-tree walk, most significant first: the walk is at node `idx`.
/// Gives the node reached, from which the value is that node less `2^bits`.
pub open spec fn tree_bits(m: RangeModel, probs: Seq<u16>, input: Seq<u8>, k: nat, idx: nat) -> Option<
    (RangeModel, Seq<u16>, nat, Seq<u8>),
>
    decreases k,
{
    if k == 0 {
        Some((m, probs, idx, input))
    } else {
        match bit_step(m, probs[idx as int], input) {
            Some((n, p, bit, rest)) => tree_bits(
                n,
                probs.update(idx as int, p),
                rest,
                (k - 1) as nat,
                idx * 2 + if bit { 1nat } else { 0nat },
            ),
            None => None,
        }
    }
}

/// `count` fresh bit trees of `bits` levels each.
pub fn trees(count: usize, bits: usize) -> (r: Vec<BitTree>)
    requires
        bits < 32,
    ensures
        r@.len() == count,
        forall|i: int| 0 <= i < count ==> (#[trigger] r@[i]).wf() && r@[i].spec_bits() == bits
            && r@[i]@ == initial_table(pow2(bits as nat)),
{
    let mut r: Vec<BitTree> = Vec::new();
    let mut i: usize = 0;
    while i < count
        invariant
            bits < 32,
            i <= count,
            r@.len() == i,
            forall|j: int| 0 <= j < i ==> (#[trigger] r@[j]).wf() && r@[j].spec_bits() == bits
                && r@[j]@ == initial_table(pow2(bits as nat)),
        decreases count - i,
    {
        r.push(BitTree::new(bits));
        i = i + 1;
    }
    r
}

/// A bit tree decoder.
#[derive(Clone, Debug)]
pub struct BitTree {
    probabilities: Probabilities,
    bits: usize,
}

impl View for BitTree {
    type V = Seq<u16>;

    /// The probabilities of the tree's nodes.
    closed spec fn view(&self) -> Seq<u16> {
        self.probabilities@
    }
}

impl BitTree {
    /// The table has one entry for each node of a tree of `bits` levels.
    pub closed spec fn wf(&self) -> bool {
        &&& self.probabilities.wf()
        &&& self.bits < 32
        &&& self.probabilities@.len() == pow2(self.bits as nat)
    }

    /// A well-formed tree holds valid probabilities only.
    pub proof fn lemma_valid(&self)
        requires
            self.wf(),
        ensures
            all_valid(self@),
    {
        self.probabilities.lemma_valid();
    }

    /// The number of levels, as a spec value.
    pub closed spec fn spec_bits(&self) -> nat {
        self.bits as nat
    }

    /// Creates a new bit tree of the given size.
    pub fn new(bits: usize) -> (r: BitTree)
        requires
            bits < 32,
        ensures
            r.wf(),
            r.spec_bits() == bits,
            r@ == initial_table(pow2(bits as nat)),
    {
        proof {
            lemma2_to64();
            if bits < 31 {
                lemma_pow2_strictly_increases(bits as nat, 31);
            }
            vstd::bits::lemma_usize_shl_is_mul(1, bits);
        }
        BitTree { probabilities: Probabilities::new(1usize << bits), bits }
    }

    /// Gets the number of bits in the tree.
    pub fn bits(&self) -> (r: usize)
        ensures
            r == self.spec_bits(),
    {
        self.bits
    }

    /// Decodes a value of `bits` bits, most significant first.
    pub fn decode(&mut self, stream: &mut Stream, range: &mut Range) -> (r: Result<usize, Error>)
        requires
            old(self).wf(),
            old(range).wf(),
            old(stream).wf(),
        ensures
            final(self).wf(),
            final(range).wf(),
            final(range)@.seeded == old(range)@.seeded,
            final(stream).wf(),
            final(self).spec_bits() == old(self).spec_bits(),
            match tree_bits(old(range)@, old(self)@, old(stream)@, old(self).spec_bits(), 1) {
                Some((m, p, node, rest)) => pow2(old(self).spec_bits()) <= node < 2 * pow2(old(self).spec_bits())
                    && r == Ok::<usize, Error>((node - pow2(old(self).spec_bits())) as usize)
                    && final(range)@ == m && final(self)@ == p && final(stream)@ == rest,
                None => r == Err::<usize, Error>(Error::Corrupted),
            },
            r matches Ok(v) ==> v < pow2(old(self).spec_bits()),
    {
        let mut m: usize = 1;
        let mut i: usize = 0;
        let bits = self.bits;
        proof {
            lemma2_to64();
        }
        while i < bits
            invariant
                self.wf(),
                range.wf(),
                range@.seeded == old(range)@.seeded,
                stream.wf(),
                self.bits == bits,
                bits == old(self).spec_bits(),
                i <= bits < 32,
                pow2(i as nat) <= m < pow2((i + 1) as nat),
                tree_bits(old(range)@, old(self)@, old(stream)@, bits as nat, 1)
                    == tree_bits(range@, self@, stream@, (bits - i) as nat, m as nat),
            decreases bits - i,
        {
            proof {
                lemma_pow2_unfold((i + 1) as nat);
                lemma_pow2_unfold((i + 2) as nat);
                if i + 1 < bits {
                    lemma_pow2_strictly_increases((i + 1) as nat, bits as nat);
                }
                lemma_pow2_strictly_increases(bits as nat, 32);
                lemma2_to64();
            }
            if self.probabilities.bit(m, stream, range)? {
                m = m * 2;
                m = m + 1;
            } else {
                m = m * 2;
            }
            i = i + 1;
        }
        proof {
            lemma_pow2_unfold((bits + 1) as nat);
            lemma_pow2_strictly_increases(bits as nat, 32);
            lemma2_to64();
            vstd::bits::lemma_usize_shl_is_mul(1, bits);
        }
        Ok(m - (1usize << bits))
    }

    /// Decodes a value of `bits` bits, least significant first.
    pub fn reverse(&mut self, stream: &mut Stream, range: &mut Range) -> (r: Result<usize, Error>)
        requires
            old(self).wf(),
            old(range).wf(),
            old(stream).wf(),
        ensures
            final(self).wf(),
            final(range).wf(),
            final(range)@.seeded == old(range)@.seeded,
            final(stream).wf(),
            final(self).spec_bits() == old(self).spec_bits(),
            match reverse_bits(old(range)@, old(self)@, 0, old(stream)@, old(self).spec_bits(), 0, 1, 0) {
                Some((m, p, v, rest)) => v < pow2(old(self).spec_bits()) && r == Ok::<usize, Error>(v as usize) && final(range)@ == m
                    && final(self)@ == p && final(stream)@ == rest,
                None => r == Err::<usize, Error>(Error::Corrupted),
            },
            r matches Ok(v) ==> v < pow2(old(self).spec_bits()),
    {
        super::probabilities::reverse(stream, &mut self.probabilities, 0, self.bits, range)
    }
}

} // verus!
