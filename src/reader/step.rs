use vstd::prelude::*;
use vstd::arithmetic::power2::pow2;

use crate::error::Error;
use crate::properties::Properties;
use super::bit_tree::BitTree;
use super::length::{LengthModel, length_step, tree_value};
use super::probabilities::{initial_table, reverse_bits};
use super::range::{RangeModel, be_u32, bit_step, direct_bits};
use super::state::State;
use super::window::{byte_back, copied};

verus! {

/// Whether the repeated distance `d` (zero for the last byte) may be copied from a window that
/// holds `h` and has room for `size` bytes.
pub open spec fn window_check(h: Seq<u8>, size: nat, d: int) -> bool {
    d <= h.len() % size || h.len() >= size
}

/// The probabilities of each tree of a vector of bit trees.
pub open spec fn trees_view(v: Seq<BitTree>) -> Seq<Seq<u16>> {
    v.map_values(|t: BitTree| t@)
}

/// The distance of a new match whose length, less the minimum, is `length`: a six-bit slot from
/// the tree of the length's class; below 4 the slot is the distance; from 4 on, 2 or 3 (by the
/// slot's low bit) shifted by half the slot less one, plus low bits read in reverse from the
/// position table (slots below 14), or else direct bits followed by four bits of the alignment tree.
pub open spec fn distance_step(
    m: RangeModel,
    slot: Seq<Seq<u16>>,
    position: Seq<u16>,
    align: Seq<u16>,
    input: Seq<u8>,
    length: nat,
) -> Option<(RangeModel, Seq<Seq<u16>>, Seq<u16>, Seq<u16>, u32, Seq<u8>)> {
    let ls = if length > 3 { 3int } else { length as int };
    match tree_value(m, slot[ls], input, 6) {
        None => None,
        Some((m1, t, s, in1)) => {
            let slots = slot.update(ls, t);
            if s < 4 {
                Some((m1, slots, position, align, s as u32, in1))
            } else {
                let direct = (s / 2 - 1) as nat;
                let base = (2 + s % 2) * pow2(direct);
                if s < 14 {
                    match reverse_bits(m1, position, base - s, in1, direct, 0, 1, 0) {
                        Some((m2, p, low, in2)) => Some((m2, slots, p, align, (base + low) as u32, in2)),
                        None => None,
                    }
                } else {
                    match direct_bits(m1, in1, (direct - 4) as nat, 0) {
                        Some((m2, mid, in2)) => match reverse_bits(m2, align, 0, in2, 4, 0, 1, 0) {
                            Some((m3, a, low, in3)) => Some((m3, slots, position, a, (base + mid * 16 + low) as u32, in3)),
                            None => None,
                        },
                        None => None,
                    }
                }
            }
        },
    }
}

/// The literal bits after the first mismatch: `byte` holds the bits so far under a leading 1.
pub open spec fn literal_plain(m: RangeModel, probs: Seq<u16>, base: int, input: Seq<u8>, byte: nat) -> Option<
    (RangeModel, Seq<u16>, nat, Seq<u8>),
>
    decreases 0x200 - byte,
{
    if byte == 0 || byte >= 0x100 {
        Some((m, probs, byte, input))
    } else {
        match bit_step(m, probs[base + byte], input) {
            Some((n, p, bit, rest)) => literal_plain(
                n,
                probs.update(base + byte, p),
                base,
                rest,
                byte * 2 + if bit { 1nat } else { 0nat },
            ),
            None => None,
        }
    }
}

/// The literal bits while they agree with the match byte, whose next bit is bit 7 of `mb`.
pub open spec fn literal_matched(m: RangeModel, probs: Seq<u16>, base: int, input: Seq<u8>, byte: nat, mb: u32) -> Option<
    (RangeModel, Seq<u16>, nat, Seq<u8>),
>
    decreases 0x200 - byte,
{
    if byte == 0 || byte >= 0x100 {
        Some((m, probs, byte, input))
    } else {
        let match_bit = (mb >> 7u32) & 1u32;
        let i = base + (1 + match_bit) * 256 + byte;
        match bit_step(m, probs[i], input) {
            Some((n, p, bit, rest)) => {
                let b: u32 = if bit { 1 } else { 0 };
                let nb = (byte * 2 + b) as nat;
                if match_bit != b {
                    literal_plain(n, probs.update(i, p), base, rest, nb)
                } else {
                    literal_matched(n, probs.update(i, p), base, rest, nb, ((mb << 1u32) & 0xffffu32) as u32)
                }
            },
            None => None,
        }
    }
}

/// Which table of `0x300` literal probabilities serves the next byte: the low `lp` bits of the
/// position and the high `lc` bits of the previous byte.
pub open spec fn literal_index(h: Seq<u8>, lc: u8, lp: u8) -> u32 {
    let total = (h.len() % 0x1_0000_0000) as u32;
    let prev: u32 = if h.len() > 0 { h.last() as u32 } else { 0 };
    let mask = ((1u32 << lp) - 1) as u32;
    (((total & mask) << lc) + (prev >> ((8 - lc) as u32))) as u32
}

/// One literal byte after the bytes `h`, in state `state` with latest distance `rep0`.
pub open spec fn literal_step(
    m: RangeModel,
    probs: Seq<u16>,
    input: Seq<u8>,
    h: Seq<u8>,
    lc: u8,
    lp: u8,
    state: u32,
    rep0: u32,
) -> Option<(RangeModel, Seq<u16>, u8, Seq<u8>)> {
    let base = 0x300 * literal_index(h, lc, lp);
    let r = if state >= 7 {
        literal_matched(m, probs, base, input, 1, byte_back(h, rep0 + 1) as u32)
    } else {
        literal_plain(m, probs, base, input, 1)
    };
    match r {
        Some((n, p, byte, rest)) => Some((n, p, (byte - 0x100) as u8, rest)),
        None => None,
    }
}


/// The decoder's state as plain values: the input not read yet, the range decoder, every
/// probability table, the state, the four latest distances and every byte decoded so far.
pub struct Model {
    pub input: Seq<u8>,
    pub range: RangeModel,
    pub literal: Seq<u16>,
    pub position: Seq<u16>,
    pub length: LengthModel,
    pub repeat: LengthModel,
    pub slot: Seq<Seq<u16>>,
    pub align: Seq<u16>,
    pub is_match: Seq<u16>,
    pub is_rep: Seq<u16>,
    pub is_rep_g0: Seq<u16>,
    pub is_rep_g1: Seq<u16>,
    pub is_rep_g2: Seq<u16>,
    pub is_rep0_long: Seq<u16>,
    pub state: u32,
    pub rep: Seq<u32>,
    pub output: Seq<u8>,
}

/// The decoder as it starts on the payload `input` with the properties `props`: every
/// probability one half, state 0, the four distances 0, an unseeded range decoder and no output.
pub open spec fn initial_model(input: Seq<u8>, props: Properties) -> Model {
    Model {
        input,
        range: RangeModel { range: 0xffff_ffff, code: 0, seeded: false },
        literal: initial_table(0x300 * pow2((props.lc + props.lp) as nat)),
        position: initial_table(115),
        length: initial_length(),
        repeat: initial_length(),
        slot: Seq::new(4, |i: int| initial_table(64)),
        align: initial_table(16),
        is_match: initial_table(256),
        is_rep: initial_table(12),
        is_rep_g0: initial_table(12),
        is_rep_g1: initial_table(12),
        is_rep_g2: initial_table(12),
        is_rep0_long: initial_table(192),
        state: 0,
        rep: seq![0u32, 0u32, 0u32, 0u32],
        output: Seq::empty(),
    }
}

/// A length decoder whose probabilities are all one half.
pub open spec fn initial_length() -> LengthModel {
    LengthModel {
        choice: initial_table(2),
        low: Seq::new(16, |i: int| initial_table(8)),
        mid: Seq::new(16, |i: int| initial_table(8)),
        hig: initial_table(256),
    }
}

/// Seeding the range decoder: a zero control byte, then the code, most significant byte first;
/// a code equal to the initial range is corrupted.
pub open spec fn seed_step(input: Seq<u8>) -> Result<(RangeModel, Seq<u8>), Error> {
    if input.len() < 5 {
        Err(Error::IO)
    } else if input[0] != 0 || be_u32(input.subrange(1, 5)) == 0xffff_ffff {
        Err(Error::Corrupted)
    } else {
        Ok((RangeModel { range: 0xffff_ffff, code: be_u32(input.subrange(1, 5)) as u32, seeded: true }, input.skip(5)))
    }
}

/// The decoder with its range decoder seeded.
pub open spec fn start_step(e: Model) -> Result<Model, Error> {
    if e.range.seeded {
        Ok(e)
    } else {
        match seed_step(e.input) {
            Ok((m, rest)) => Ok(Model { range: m, input: rest, ..e }),
            Err(err) => Err(err),
        }
    }
}

/// The low `pb` bits of the number of bytes decoded.
pub open spec fn pos_state(e: Model, props: Properties) -> nat {
    (((e.output.len() % 0x1_0000_0000) as u32) & (((1u32 << props.pb) - 1) as u32)) as nat
}

/// Decodes one item: seeds the range decoder first if it is not yet, stops at a declared length
/// that is met, and fails on a finished coder of a stream of unknown length; the number is how
/// many bytes the item gave, zero at the end of the stream.
#[verifier::opaque]
pub open spec fn decode_step(e: Model, props: Properties) -> Result<(Model, nat), Error> {
    match start_step(e) {
        Err(err) => Err(err),
        Ok(e1) => match props.uncompressed {
            Some(size) => if e1.output.len() == size {
                Ok((e1, 0))
            } else {
                item_step(e1, props)
            },
            None => if e1.range.code == 0 {
                Err(Error::MissingMarker)
            } else {
                item_step(e1, props)
            },
        },
    }
}

/// The kind of item, from the match flag and then the repetition flag of the state.
pub open spec fn item_step(e: Model, props: Properties) -> Result<(Model, nat), Error> {
    let pos = pos_state(e, props);
    let i = pos * 16 + e.state;
    match bit_step(e.range, e.is_match[i], e.input) {
        None => Err(Error::Corrupted),
        Some((m1, p1, is_match, in1)) => {
            let e1 = Model { range: m1, is_match: e.is_match.update(i, p1), input: in1, ..e };
            if !is_match {
                literal_item(e1, props)
            } else {
                match bit_step(e1.range, e1.is_rep[e1.state as int], e1.input) {
                    None => Err(Error::Corrupted),
                    Some((m2, p2, is_rep, in2)) => {
                        let e2 = Model { range: m2, is_rep: e1.is_rep.update(e1.state as int, p2), input: in2, ..e1 };
                        if is_rep {
                            repetition_item(e2, props, pos)
                        } else {
                            match_item(e2, props, pos)
                        }
                    },
                }
            }
        },
    }
}

/// A literal byte.
pub open spec fn literal_item(e: Model, props: Properties) -> Result<(Model, nat), Error> {
    if props.uncompressed == Some(e.output.len() as u64) {
        Err(Error::HasMoreData)
    } else {
        match literal_step(e.range, e.literal, e.input, e.output, props.lc, props.lp, e.state, e.rep[0]) {
            None => Err(Error::Corrupted),
            Some((m, p, b, rest)) => Ok((
                Model {
                    range: m,
                    literal: p,
                    input: rest,
                    output: e.output.push(b),
                    state: State::Literal(e.state).next(),
                    ..e
                },
                1,
            )),
        }
    }
}

/// A repetition: one byte from the latest distance, or a match at one of the four latest
/// distances, which moves to the front.
pub open spec fn repetition_item(e: Model, props: Properties, pos: nat) -> Result<(Model, nat), Error> {
    if props.uncompressed == Some(e.output.len() as u64) || e.output.len() == 0 {
        Err(Error::HasMoreData)
    } else {
        let st = e.state as int;
        match bit_step(e.range, e.is_rep_g0[st], e.input) {
            None => Err(Error::Corrupted),
            Some((m1, p1, g0, in1)) => {
                let e1 = Model { range: m1, is_rep_g0: e.is_rep_g0.update(st, p1), input: in1, ..e };
                if !g0 {
                    rep0_item(e1, props, pos)
                } else {
                    picked_item(e1, props, pos)
                }
            },
        }
    }
}

/// After a repetition at the latest distance: one byte, or a match of a decoded length.
pub open spec fn rep0_item(e: Model, props: Properties, pos: nat) -> Result<(Model, nat), Error> {
    let i = e.state * 16 + pos;
    match bit_step(e.range, e.is_rep0_long[i], e.input) {
        None => Err(Error::Corrupted),
        Some((m2, p2, long, in2)) => {
            let e2 = Model { range: m2, is_rep0_long: e.is_rep0_long.update(i, p2), input: in2, ..e };
            if !long {
                Ok((
                    Model {
                        output: e2.output.push(byte_back(e2.output, e2.rep[0] + 1)),
                        state: State::ShortRepetition(e2.state).next(),
                        ..e2
                    },
                    1,
                ))
            } else {
                repeat_length(e2, props, pos)
            }
        },
    }
}

/// A match at the second, third or fourth latest distance, which moves to the front.
pub open spec fn picked_item(e: Model, props: Properties, pos: nat) -> Result<(Model, nat), Error> {
    match pick_step(e) {
        None => Err(Error::Corrupted),
        Some(e2) => repeat_length(e2, props, pos),
    }
}

/// Moves the second, third or fourth latest distance to the front.
pub open spec fn pick_step(e: Model) -> Option<Model> {
    let st = e.state as int;
    match bit_step(e.range, e.is_rep_g1[st], e.input) {
        None => None,
        Some((m1, p1, g1, in1)) => {
            let e1 = Model { range: m1, is_rep_g1: e.is_rep_g1.update(st, p1), input: in1, ..e };
            if !g1 {
                Some(Model { rep: seq![e.rep[1], e.rep[0], e.rep[2], e.rep[3]], ..e1 })
            } else {
                match bit_step(e1.range, e1.is_rep_g2[st], e1.input) {
                    None => None,
                    Some((m2, p2, g2, in2)) => {
                        let e2 = Model { range: m2, is_rep_g2: e1.is_rep_g2.update(st, p2), input: in2, ..e1 };
                        if !g2 {
                            Some(Model { rep: seq![e.rep[2], e.rep[0], e.rep[1], e.rep[3]], ..e2 })
                        } else {
                            Some(Model { rep: seq![e.rep[3], e.rep[0], e.rep[1], e.rep[2]], ..e2 })
                        }
                    },
                }
            }
        },
    }
}

/// The length of a repeated match, then the copy.
pub open spec fn repeat_length(e: Model, props: Properties, pos: nat) -> Result<(Model, nat), Error> {
    match length_step(e.repeat, pos as int, e.range, e.input) {
        None => Err(Error::Corrupted),
        Some((l, m, len, rest)) => copy_item(
            Model { repeat: l, range: m, input: rest, state: State::Repetition(e.state).next(), ..e },
            props,
            len + 2,
        ),
    }
}

/// A new match: its length and distance, or the end marker.
pub open spec fn match_item(e: Model, props: Properties, pos: nat) -> Result<(Model, nat), Error> {
    match length_step(e.length, pos as int, e.range, e.input) {
        None => Err(Error::Corrupted),
        Some((l, m1, len, in1)) => match distance_step(m1, e.slot, e.position, e.align, in1, len) {
            None => Err(Error::Corrupted),
            Some((m2, sl, p, a, dist, in2)) => {
                let e2 = Model { length: l, range: m2, slot: sl, position: p, align: a, input: in2, ..e };
                if dist == 0xffff_ffff {
                    if m2.code == 0 && (props.uncompressed is None || props.uncompressed == Some(e.output.len() as u64)) {
                        Ok((e2, 0))
                    } else {
                        Err(Error::NeedMoreData)
                    }
                } else if dist >= props.dictionary || !window_check(e.output, props.dictionary as nat, dist as int) {
                    Err(Error::Corrupted)
                } else {
                    copy_item(
                        Model {
                            rep: seq![dist, e.rep[0], e.rep[1], e.rep[2]],
                            state: State::Match(e.state).next(),
                            ..e2
                        },
                        props,
                        len + 2,
                    )
                }
            },
        },
    }
}

/// Copies `length` bytes from the latest distance, unless that goes past the declared length.
pub open spec fn copy_item(e: Model, props: Properties, length: nat) -> Result<(Model, nat), Error> {
    match props.uncompressed {
        Some(size) if e.output.len() + length > size => Err(Error::HasMoreData),
        _ => Ok((Model { output: copied(e.output, e.rep[0] + 1, length), ..e }, length)),
    }
}

/// The decoder after `k` steps from `e`, or the error of the first step that failed.
pub open spec fn after_steps(e: Model, props: Properties, k: nat) -> Result<Model, Error>
    decreases k,
{
    if k == 0 {
        Ok(e)
    } else {
        match after_steps(e, props, (k - 1) as nat) {
            Ok(m) => match decode_step(m, props) {
                Ok((n, _)) => Ok(n),
                Err(err) => Err(err),
            },
            Err(err) => Err(err),
        }
    }
}

/// A stream that declares length 0 ends cleanly at its first step, once its coder is seeded:
/// no item is decoded and nothing is output.
pub proof fn lemma_declared_zero_ends(e: Model, props: Properties)
    requires
        props.uncompressed == Some(0u64),
        e.output.len() == 0,
        start_step(e) is Ok,
    ensures
        decode_step(e, props) == Ok::<(Model, nat), Error>((start_step(e).unwrap(), 0)),
        start_step(e).unwrap().output == e.output,
{
    reveal(decode_step);
}

/// An end marker met before the declared length is reached fails with `NeedMoreData`.
pub proof fn lemma_marker_before_length(e: Model, props: Properties, pos: nat)
    requires
        props.uncompressed is Some,
        e.output.len() < props.uncompressed.unwrap(),
        length_step(e.length, pos as int, e.range, e.input) is Some,
        ({
            let (l, m1, len, in1) = length_step(e.length, pos as int, e.range, e.input).unwrap();
            &&& distance_step(m1, e.slot, e.position, e.align, in1, len) is Some
            &&& distance_step(m1, e.slot, e.position, e.align, in1, len).unwrap().4 == 0xffff_ffff
        }),
    ensures
        match_item(e, props, pos) == Err::<(Model, nat), Error>(Error::NeedMoreData),
{
}

} // verus!
