use vstd::prelude::*;
use vstd::arithmetic::power2::{pow2, lemma2_to64};

use crate::consts::{POSITION_BITS_MAX, PROBABILITY_INITIAL_VALUE};
use crate::error::Error;
use super::bit_tree::{BitTree, tree_bits, trees};
use super::probabilities::{all_valid, initial_table};
use super::range::{Range, RangeModel, bit_step, valid_prob};
use super::stream::Stream;

verus! {

/// The probabilities of a length decoder as plain values.
pub struct LengthModel {
    pub choice: Seq<u16>,
    pub low: Seq<Seq<u16>>,
    pub mid: Seq<Seq<u16>>,
    pub hig: Seq<u16>,
}

/// A bit tree of `bits` levels read as a value: the node reached less `2^bits`.
pub open spec fn tree_value(m: RangeModel, probs: Seq<u16>, input: Seq<u8>, bits: nat) -> Option<
    (RangeModel, Seq<u16>, nat, Seq<u8>),
> {
    match tree_bits(m, probs, input, bits, 1) {
        Some((n, p, node, rest)) => Some((n, p, (node - pow2(bits)) as nat, rest)),
        None => None,
    }
}

/// One length, less the minimum match length: a choice bit, then a low tree of 3 bits for
/// `pos`; or a second choice bit, then a middle tree of 3 bits for `pos` (plus 8) or the high
/// tree of 8 bits (plus 16).
pub open spec fn length_step(l: LengthModel, pos: int, m: RangeModel, input: Seq<u8>) -> Option<
    (LengthModel, RangeModel, nat, Seq<u8>),
> {
    match bit_step(m, l.choice[0], input) {
        None => None,
        Some((m1, p1, first, in1)) => {
            let c1 = l.choice.update(0, p1);
            if !first {
                match tree_value(m1, l.low[pos], in1, 3) {
                    Some((m2, t, v, rest)) => Some((LengthModel { choice: c1, low: l.low.update(pos, t), ..l }, m2, v, rest)),
                    None => None,
                }
            } else {
                match bit_step(m1, c1[1], in1) {
                    None => None,
                    Some((m2, p2, second, in2)) => {
                        let c2 = c1.update(1, p2);
                        if !second {
                            match tree_value(m2, l.mid[pos], in2, 3) {
                                Some((m3, t, v, rest)) => Some(
                                    (LengthModel { choice: c2, mid: l.mid.update(pos, t), ..l }, m3, v + 8, rest),
                                ),
                                None => None,
                            }
                        } else {
                            match tree_value(m2, l.hig, in2, 8) {
                                Some((m3, t, v, rest)) => Some(
                                    (LengthModel { choice: c2, hig: t, ..l }, m3, v + 16, rest),
                                ),
                                None => None,
                            }
                        }
                    },
                }
            }
        },
    }
}

/// A length decoder.
#[derive(Clone, Debug)]
pub struct Length {
    choice: [u16; 2],
    low: Vec<BitTree>,
    mid: Vec<BitTree>,
    hig: BitTree,
}

impl View for Length {
    type V = LengthModel;

    closed spec fn view(&self) -> LengthModel {
        LengthModel {
            choice: self.choice@,
            low: self.low@.map_values(|t: BitTree| t@),
            mid: self.mid@.map_values(|t: BitTree| t@),
            hig: self.hig@,
        }
    }
}

impl Length {
    /// Sixteen low and sixteen middle trees of three levels, a high tree of eight, and valid
    /// choice probabilities.
    pub closed spec fn wf(&self) -> bool {
        &&& valid_prob(self.choice[0]) && valid_prob(self.choice[1])
        &&& self.low@.len() == 16 && self.mid@.len() == 16
        &&& forall|i: int| 0 <= i < 16 ==> (#[trigger] self.low@[i]).wf() && self.low@[i].spec_bits() == 3
        &&& forall|i: int| 0 <= i < 16 ==> (#[trigger] self.mid@[i]).wf() && self.mid@[i].spec_bits() == 3
        &&& self.hig.wf() && self.hig.spec_bits() == 8
    }

    /// The probability tables: the choices, the low trees, the middle trees and the high tree.
    pub open spec fn tables(&self) -> Seq<Seq<u16>> {
        seq![self@.choice] + self@.low + self@.mid + seq![self@.hig]
    }

    /// A well-formed length decoder holds valid probabilities only.
    pub proof fn lemma_valid(&self)
        requires
            self.wf(),
        ensures
            forall|i: int| 0 <= i < self.tables().len() ==> all_valid(#[trigger] self.tables()[i]),
    {
        assert forall|i: int| 0 <= i < self.tables().len() implies all_valid(#[trigger] self.tables()[i]) by {
            if i == 0 {
                assert(self.tables()[i] == self.choice@);
            } else if i <= 16 {
                assert(self.tables()[i] == self.low@[i - 1]@);
                self.low@[i - 1].lemma_valid();
            } else if i <= 32 {
                assert(self.tables()[i] == self.mid@[i - 17]@);
                self.mid@[i - 17].lemma_valid();
            } else {
                assert(self.tables()[i] == self.hig@);
                self.hig.lemma_valid();
            }
        }
    }

    /// Creates a new length decoder.
    pub fn new() -> (r: Length)
        ensures
            r.wf(),
            r@.choice == initial_table(2),
            r@.low == Seq::new(16, |i: int| initial_table(8)),
            r@.mid == Seq::new(16, |i: int| initial_table(8)),
            r@.hig == initial_table(256),
    {
        proof {
            lemma2_to64();
        }
        assert((1usize << 4usize) == 16) by (bit_vector);
        let r = Length {
            choice: [PROBABILITY_INITIAL_VALUE; 2],
            low: trees(1usize << POSITION_BITS_MAX, 3),
            mid: trees(1usize << POSITION_BITS_MAX, 3),
            hig: BitTree::new(8),
        };
        assert(r@.choice =~= initial_table(2));
        assert(r@.low =~= Seq::new(16, |i: int| initial_table(8)));
        assert(r@.mid =~= Seq::new(16, |i: int| initial_table(8)));
        r
    }

    /// Decodes a length, less the minimum match length, for the position state `state`.
    pub fn decode(&mut self, stream: &mut Stream, range: &mut Range, state: usize) -> (r: Result<usize, Error>)
        requires
            old(self).wf(),
            old(range).wf(),
            old(stream).wf(),
            state < 16,
        ensures
            final(self).wf(),
            final(range).wf(),
            final(range)@.seeded == old(range)@.seeded,
            final(stream).wf(),
            match length_step(old(self)@, state as int, old(range)@, old(stream)@) {
                Some((l, m, v, rest)) => v < 272 && r == Ok::<usize, Error>(v as usize) && final(self)@ == l
                    && final(range)@ == m && final(stream)@ == rest,
                None => r == Err::<usize, Error>(Error::Corrupted),
            },
            r matches Ok(v) ==> v < 272,
    {
        proof {
            lemma2_to64();
        }
        if !range.probabilistic(stream, &mut self.choice[0])? {
            let ghost before = *self;
            let r = self.low[state].decode(stream, range);
            proof {
                assert(self.low@ == before.low@.update(state as int, self.low@[state as int]));
                assert(self@.low =~= before@.low.update(state as int, self.low@[state as int]@));
            }
            let v = r?;
            assert(self@ == (LengthModel { low: before@.low.update(state as int, self.low@[state as int]@), ..before@ }));
            Ok(v)
        } else if !range.probabilistic(stream, &mut self.choice[1])? {
            let ghost before = *self;
            let r = self.mid[state].decode(stream, range);
            proof {
                assert(self.mid@ == before.mid@.update(state as int, self.mid@[state as int]));
                assert(self@.mid =~= before@.mid.update(state as int, self.mid@[state as int]@));
            }
            let v = r?;
            Ok(8 + v)
        } else {
            let ghost before = *self;
            let v = self.hig.decode(stream, range)?;
            assert(self@ == (LengthModel { hig: self.hig@, ..before@ }));
            Ok(16 + v)
        }
    }
}

} // verus!
