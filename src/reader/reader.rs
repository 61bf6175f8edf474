use vstd::prelude::*;
use vstd::arithmetic::power2::{pow2, lemma2_to64};

use crate::consts::{
    ALIGN_BITS, END_POSITION_MODEL_INDEX, FULL_DISTANCES, LENGTH_TO_POSITION_STATES,
    MATCH_MINIMUM_LENGTH, POSITION_BITS_MAX, STATES,
};
use crate::error::Error;
use crate::properties::{self, Properties, header_properties};
use super::bit_tree::{BitTree, trees};
use super::cache::Cache;
use super::length::{Length, tree_value};
use super::probabilities::{Probabilities, all_valid, initial_table, reverse, reverse_bits};
use super::range::{Range, RangeModel, bit_step, direct_bits};
use super::state::State;
use super::stream::Stream;
use super::window::{Window, byte_back, copied};
use super::step::{
    Model, after_steps, initial_model, copy_item, decode_step, distance_step, item_step, literal_index,
    literal_item, literal_matched, literal_plain, literal_step, match_item, pick_step, picked_item,
    rep0_item, repeat_length, repetition_item, start_step, trees_view, window_check,
};

verus! {

/// The distance that marks the end of the stream.
pub const END_MARKER: u32 = 0xffff_ffff;

proof fn lemma_check_grows(h: Seq<u8>, g: Seq<u8>, size: nat, d: int)
    requires
        size > 0,
        h.len() <= g.len(),
        window_check(h, size, d),
    ensures
        window_check(g, size, d),
{
    if h.len() < size {
        vstd::arithmetic::div_mod::lemma_small_mod(h.len(), size);
    }
    if g.len() < size {
        vstd::arithmetic::div_mod::lemma_small_mod(g.len(), size);
    }
}

/// What one decoding step from `a` (sink `sa`) to `b` (sink `sb`) keeps, and how it extends the
/// output: the new bytes go to the sink too, and every copy reads from a distance within the
/// dictionary that the window allowed.
pub open spec fn stepped(a: Reader, b: Reader, sa: Cache, sb: Cache, r: Result<usize, Error>) -> bool {
    &&& b.wf_engine()
    &&& sb.wf()
    &&& sb.spec_limit() == sa.spec_limit()
    &&& b.spec_properties() == a.spec_properties()
    &&& b.delivered() == a.delivered()
    &&& b.pending() == a.pending()
    &&& b.holds_same(a)
    &&& a.output().len() <= b.output().len()
    &&& b.output().take(a.output().len() as int) == a.output()
    &&& sb@ == sa@ + b.output().skip(a.output().len() as int)
    &&& (r matches Ok(n) ==> n <= 273 && b.output().len() == a.output().len() + n)
    &&& (r is Err ==> b.output() == a.output())
    &&& (r is Ok && r.unwrap() >= 2 ==> {
        let d = b.reps()[0] as int + 1;
        &&& 1 <= d <= a.spec_properties().dictionary
        &&& window_check(a.output(), a.spec_properties().dictionary as nat, d - 1)
        &&& b.output() == copied(a.output(), d, r.unwrap() as nat)
    })
}

/// `r` and `after` are what the step `expected` gives: its model and count, or its error.
pub open spec fn follows(r: Result<usize, Error>, after: Model, expected: Result<(Model, nat), Error>) -> bool {
    match expected {
        Ok((m, n)) => r == Ok::<usize, Error>(n as usize) && after == m,
        Err(e) => r == Err::<usize, Error>(e),
    }
}

/// The decoder `k` steps after `e` did not fail, and its output begins `out`.
pub open spec fn earlier(e: Model, props: Properties, k: nat, out: Seq<u8>) -> bool {
    &&& after_steps(e, props, k) is Ok
    &&& after_steps(e, props, k).unwrap().output.len() <= out.len()
    &&& out.take(after_steps(e, props, k).unwrap().output.len() as int) == after_steps(e, props, k).unwrap().output
}

/// A stream ends cleanly: a declared length is met exactly, and a stream of unknown length
/// ended with the marker on a finished coder.
pub open spec fn ended(b: Reader) -> bool {
    match b.spec_properties().uncompressed {
        Some(n) => b.output().len() == n,
        None => b.range_model().code == 0,
    }
}

proof fn lemma_count(len: nat, c: u64, n: u64)
    requires
        c == len % 0x1_0000_0000_0000_0000,
    ensures
        c.wrapping_add(n) == (len + n) % 0x1_0000_0000_0000_0000,
{
    let m: int = 0x1_0000_0000_0000_0000;
    vstd::arithmetic::div_mod::lemma_add_mod_noop(len as int, n as int, m);
    vstd::arithmetic::div_mod::lemma_small_mod(n as nat, m as nat);
    if c + n < m {
        vstd::arithmetic::div_mod::lemma_small_mod((c + n) as nat, m as nat);
    } else {
        vstd::arithmetic::div_mod::lemma_fundamental_div_mod_converse(c + n, m, 1, c + n - m);
    }
}

proof fn lemma_copied_len(h: Seq<u8>, d: int, n: nat)
    ensures
        copied(h, d, n).len() == h.len() + n,
        copied(h, d, n).take(h.len() as int) == h,
    decreases n,
{
    if n > 0 {
        lemma_copied_len(h, d, (n - 1) as nat);
        assert(copied(h, d, n).take(h.len() as int) =~= copied(h, d, (n - 1) as nat).take(h.len() as int));
    }
}

broadcast use super::window::lemma_take_all, super::window::lemma_append_skip_all;

/// Copies `n` bytes of `src`, from `from` on, to the front of `buf`.
fn copy_into(buf: &mut [u8], src: &Vec<u8>, from: usize, n: usize)
    requires
        n <= old(buf)@.len(),
        from + n <= src@.len(),
    ensures
        final(buf)@.len() == old(buf)@.len(),
        final(buf)@.take(n as int) == src@.subrange(from as int, from + n),
        final(buf)@.skip(n as int) == old(buf)@.skip(n as int),
{
    let total = src.len();
    let mut i: usize = 0;
    while i < n
        invariant
            i <= n <= buf@.len(),
            from + n <= total,
            total == src@.len(),
            buf@.len() == old(buf)@.len(),
            forall|j: int| 0 <= j < i ==> buf@[j] == src@[from + j],
            forall|j: int| n <= j < buf@.len() ==> buf@[j] == old(buf)@[j],
        decreases n - i,
    {
        buf[i] = src[from + i];
        i = i + 1;
    }
    assert(buf@.take(n as int) =~= src@.subrange(from as int, from + n));
    assert(buf@.skip(n as int) =~= old(buf)@.skip(n as int));
}

/// Creates a LZMA stream reader over the given compressed bytes.
pub fn read(data: Vec<u8>) -> (r: Result<Reader, Error>)
    ensures
        data@.len() == 0 ==> r == Err::<Reader, Error>(Error::IO),
        data@.len() >= 1 && data@[0] >= 225 ==> r == Err::<Reader, Error>(Error::InvalidProperties),
        data@.len() >= 1 && data@[0] < 225 && data@.len() < 13 ==> r == Err::<Reader, Error>(Error::IO),
        data@.len() >= 13 && data@[0] < 225 ==> (r matches Ok(reader) && reader.wf()
            && reader.spec_properties() == header_properties(data@) && reader.input() == data@.skip(13)
            && reader.output().len() == 0 && reader.delivered().len() == 0 && reader.pending().len() == 0
            && reader.model() == initial_model(data@.skip(13), header_properties(data@))
            && reader.origin() == reader.model() && reader.steps() == 0 && !reader.failed()),
{
    Reader::from(Stream::new(data))
}

/// A LZMA stream reader.
pub struct Reader {
    stream: Stream,
    decoded: u64,
    properties: Properties,
    // leftovers of the last decoded item that did not fit in the caller's buffer
    buffer: Option<Vec<u8>>,
    offset: usize,
    range: Range,
    window: Window,
    literal: Probabilities,
    position: Probabilities,
    length: Length,
    repeat: Length,
    slot: Vec<BitTree>,
    align: BitTree,
    state: u32,
    rep: [u32; 4],
    is_match: Probabilities,
    is_rep: Probabilities,
    is_rep_g0: Probabilities,
    is_rep_g1: Probabilities,
    is_rep_g2: Probabilities,
    is_rep0_long: Probabilities,
    delivered: Ghost<Seq<u8>>,
    origin: Ghost<Model>,
    steps: Ghost<nat>,
    failed: Ghost<bool>,
}

impl Reader {
    /// Every byte decoded so far, in order.
    pub closed spec fn output(&self) -> Seq<u8> {
        self.window@
    }

    /// Every byte handed to the caller so far, in order.
    pub closed spec fn delivered(&self) -> Seq<u8> {
        self.delivered@
    }

    /// The decoded bytes held back for the next read.
    pub closed spec fn pending(&self) -> Seq<u8> {
        match self.buffer {
            Some(b) => b@.skip(self.offset as int),
            None => Seq::empty(),
        }
    }

    /// The bytes held back, and the place of the next one to hand out, are those of `other`.
    pub closed spec fn holds_same(&self, other: Reader) -> bool {
        &&& self.buffer == other.buffer && self.offset == other.offset
        &&& self.origin == other.origin && self.steps == other.steps && self.failed == other.failed
    }

    /// The decoder's state as plain values.
    pub closed spec fn model(&self) -> Model {
        Model {
            input: self.stream@,
            range: self.range@,
            literal: self.literal@,
            position: self.position@,
            length: self.length@,
            repeat: self.repeat@,
            slot: trees_view(self.slot@),
            align: self.align@,
            is_match: self.is_match@,
            is_rep: self.is_rep@,
            is_rep_g0: self.is_rep_g0@,
            is_rep_g1: self.is_rep_g1@,
            is_rep_g2: self.is_rep_g2@,
            is_rep0_long: self.is_rep0_long@,
            state: self.state,
            rep: self.rep@,
            output: self.window@,
        }
    }

    /// Every probability table of the model: the literal, distance and flag tables, the distance
    /// slot trees, the alignment tree, and the tables of the two length decoders.
    pub closed spec fn tables(&self) -> Seq<Seq<u16>> {
        seq![
            self.literal@,
            self.position@,
            self.is_match@,
            self.is_rep@,
            self.is_rep_g0@,
            self.is_rep_g1@,
            self.is_rep_g2@,
            self.is_rep0_long@,
            self.align@,
        ] + self.slot@.map_values(|t: BitTree| t@) + self.length.tables() + self.repeat.tables()
    }

    /// The decoder as it was made, before any step.
    pub closed spec fn origin(&self) -> Model {
        self.origin@
    }

    /// How many decoding steps the reads have made.
    pub closed spec fn steps(&self) -> nat {
        self.steps@
    }

    /// Whether a read has failed; after that the reader promises nothing more of its output.
    pub closed spec fn failed(&self) -> bool {
        self.failed@
    }

    /// The model properties, as a spec value.
    pub closed spec fn spec_properties(&self) -> Properties {
        self.properties
    }

    /// The state of the range decoder.
    pub closed spec fn range_model(&self) -> RangeModel {
        self.range@
    }

    /// The four most recent match distances, the latest first.
    pub closed spec fn reps(&self) -> Seq<u32> {
        self.rep@
    }

    /// The compressed bytes not read yet.
    pub closed spec fn input(&self) -> Seq<u8> {
        self.stream@
    }

    /// The number of bytes decoded, as the decoder counts them.
    pub closed spec fn spec_decoded(&self) -> u64 {
        self.decoded
    }

    /// The model tables have their sizes and hold valid probabilities; the range decoder, the
    /// window and the repeated distances are consistent; the count of decoded bytes stays within
    /// the declared length.
    pub closed spec fn wf_engine(&self) -> bool {
        &&& self.properties.valid()
        &&& self.stream.wf()
        &&& self.range.wf()
        &&& (!self.range@.seeded ==> self.range@ == (RangeModel { range: 0xffff_ffff, code: 0, seeded: false })
            && self.window@.len() == 0)
        &&& self.window.wf()
        &&& self.window.spec_size() == self.properties.dictionary
        &&& self.literal.wf()
        &&& self.literal@.len() == 0x300 * pow2((self.properties.lc + self.properties.lp) as nat)
        &&& self.position.wf() && self.position@.len() == 1 + FULL_DISTANCES - END_POSITION_MODEL_INDEX
        &&& self.length.wf() && self.repeat.wf()
        &&& self.slot@.len() == LENGTH_TO_POSITION_STATES
        &&& forall|i: int| 0 <= i < 4 ==> (#[trigger] self.slot@[i]).wf() && self.slot@[i].spec_bits() == 6
        &&& self.align.wf() && self.align.spec_bits() == ALIGN_BITS
        &&& self.state < STATES
        &&& forall|i: int| 0 <= i < 4 ==> #[trigger] self.rep[i] < self.properties.dictionary
            && window_check(self.window@, self.window.spec_size() as nat, self.rep[i] as int)
        &&& self.is_match.wf() && self.is_match@.len() == 256
        &&& self.is_rep.wf() && self.is_rep@.len() == STATES
        &&& self.is_rep_g0.wf() && self.is_rep_g0@.len() == STATES
        &&& self.is_rep_g1.wf() && self.is_rep_g1@.len() == STATES
        &&& self.is_rep_g2.wf() && self.is_rep_g2@.len() == STATES
        &&& self.is_rep0_long.wf() && self.is_rep0_long@.len() == 192
        &&& self.decoded == self.window@.len() % 0x1_0000_0000_0000_0000
        &&& (self.properties.uncompressed matches Some(n) ==> self.window@.len() <= n)
    }

    /// The engine is consistent, and the bytes handed out followed by those held back are
    /// exactly the bytes decoded.
    pub closed spec fn wf(&self) -> bool {
        &&& self.wf_engine()
        &&& (self.buffer matches Some(b) ==> self.offset < b@.len())
        &&& self.delivered@ + self.pending() == self.window@
        &&& !self.failed@ ==> after_steps(self.origin@, self.properties, self.steps@) == Ok::<Model, Error>(self.model())
        &&& !self.failed@ ==> forall|i: nat| i <= self.steps@ ==> #[trigger] earlier(self.origin@, self.properties, i, self.window@)
    }

    /// Creates a LZMA reader with the given model properties and the given stream.
    pub fn new(stream: Stream, properties: Properties) -> (r: Result<Reader, Error>)
        requires
            stream.wf(),
            properties.valid(),
        ensures
            r matches Ok(reader) && reader.wf() && reader.spec_properties() == properties
                && reader.origin() == reader.model() && reader.steps() == 0 && !reader.failed()
                && reader.input() == stream@ && reader.output().len() == 0
                && !reader.range_model().seeded && reader.model() == initial_model(stream@, properties)
                && reader.delivered().len() == 0 && reader.pending().len() == 0,
    {
        let window = Window::new(properties.dictionary);
        proof {
            lemma2_to64();
            let k = (properties.lc + properties.lp) as nat;
            if k < 12 {
                vstd::arithmetic::power2::lemma_pow2_strictly_increases(k, 12);
            }
            vstd::bits::lemma_usize_shl_is_mul(0x300, (properties.lc + properties.lp) as usize);
        }
        let literal = Probabilities::new(0x300usize << (properties.lc + properties.lp) as usize);
        assert((STATES << POSITION_BITS_MAX) == 192) by (bit_vector);
        let r = Reader {
            stream,
            decoded: 0,
            properties,
            buffer: None,
            offset: 0,
            range: Range::empty(),
            window,
            literal,
            position: Probabilities::new(1 + FULL_DISTANCES - END_POSITION_MODEL_INDEX),
            length: Length::new(),
            repeat: Length::new(),
            slot: trees(LENGTH_TO_POSITION_STATES, 6),
            align: BitTree::new(ALIGN_BITS),
            state: 0,
            rep: [0; 4],
            is_match: Probabilities::new(256),
            is_rep: Probabilities::new(STATES),
            is_rep_g0: Probabilities::new(STATES),
            is_rep_g1: Probabilities::new(STATES),
            is_rep_g2: Probabilities::new(STATES),
            is_rep0_long: Probabilities::new(STATES << POSITION_BITS_MAX),
            delivered: Ghost(Seq::empty()),
            origin: Ghost(arbitrary()),
            steps: Ghost(0),
            failed: Ghost(false),
        };
        let ghost origin = r.model();
        let mut r = r;
        r.origin = Ghost(origin);
        proof {
            vstd::arithmetic::div_mod::lemma_small_mod(0, properties.dictionary as nat);
            assert(r.delivered@ + r.pending() =~= r.window@);
            assert(trees_view(r.slot@) =~= Seq::new(4, |i: int| initial_table(64)));
            assert(r.rep@ =~= seq![0u32, 0u32, 0u32, 0u32]);
            assert(r.pending() =~= Seq::<u8>::empty());
            assert(r.model() =~= initial_model(r.stream@, properties));
        }
        Ok(r)
    }

    /// Creates a LZMA stream from the given stream, reading the model properties.
    pub fn from(mut stream: Stream) -> (r: Result<Reader, Error>)
        requires
            stream.wf(),
        ensures
            stream@.len() == 0 ==> r == Err::<Reader, Error>(Error::IO),
            stream@.len() >= 1 && stream@[0] >= 225 ==> r == Err::<Reader, Error>(Error::InvalidProperties),
            stream@.len() >= 1 && stream@[0] < 225 && stream@.len() < 13 ==> r == Err::<Reader, Error>(Error::IO),
            stream@.len() >= 13 && stream@[0] < 225 ==> (r matches Ok(reader) && reader.wf()
                && reader.spec_properties() == header_properties(stream@) && reader.input() == stream@.skip(13)
                && reader.output().len() == 0 && reader.delivered().len() == 0 && reader.pending().len() == 0
                && reader.model() == initial_model(stream@.skip(13), header_properties(stream@))
                && reader.origin() == reader.model() && reader.steps() == 0 && !reader.failed()),
    {
        let properties = properties::read(&mut stream)?;
        Reader::new(stream, properties)
    }

    /// Returns the model properties.
    pub fn properties(&self) -> (r: &Properties)
        ensures
            *r == self.spec_properties(),
    {
        &self.properties
    }

    /// Returns the number of decoded bytes held back for the next read.
    pub fn cached(&self) -> (r: usize)
        requires
            self.wf(),
        ensures
            r == self.pending().len(),
    {
        match &self.buffer {
            Some(buffer) => buffer.len() - self.offset,
            None => 0,
        }
    }

    /// Unwraps this `Reader`, returning the compressed bytes not read yet.
    ///
    /// Note that any leftover data in the internal buffer is lost.
    pub fn into_inner(self) -> (r: Vec<u8>)
        requires
            self.wf(),
        ensures
            r@ == self.input(),
    {
        self.stream.into_remaining()
    }

    /// Decodes the distance of a new match whose length, less the minimum, is `length`.
    fn distance(
        slot: &mut Vec<BitTree>,
        position: &mut Probabilities,
        align: &mut BitTree,
        stream: &mut Stream,
        range: &mut Range,
        length: usize,
    ) -> (r: Result<u32, Error>)
        requires
            old(slot)@.len() == 4,
            forall|i: int| 0 <= i < 4 ==> (#[trigger] old(slot)@[i]).wf() && old(slot)@[i].spec_bits() == 6,
            old(position).wf(),
            old(position)@.len() == 1 + FULL_DISTANCES - END_POSITION_MODEL_INDEX,
            old(align).wf(),
            old(align).spec_bits() == ALIGN_BITS,
            old(stream).wf(),
            old(range).wf(),
        ensures
            final(slot)@.len() == 4,
            forall|i: int| 0 <= i < 4 ==> (#[trigger] final(slot)@[i]).wf() && final(slot)@[i].spec_bits() == 6,
            final(position).wf(),
            final(position)@.len() == 1 + FULL_DISTANCES - END_POSITION_MODEL_INDEX,
            final(align).wf(),
            final(align).spec_bits() == ALIGN_BITS,
            final(stream).wf(),
            final(range).wf(),
            final(range)@.seeded == old(range)@.seeded,
            match distance_step(old(range)@, trees_view(old(slot)@), old(position)@, old(align)@, old(stream)@, length as nat) {
                Some((m, sl, p, a, d, rest)) => r == Ok::<u32, Error>(d) && final(range)@ == m
                    && trees_view(final(slot)@) == sl && final(position)@ == p && final(align)@ == a
                    && final(stream)@ == rest,
                None => r == Err::<u32, Error>(Error::Corrupted),
            },
    {
        let state = if length > LENGTH_TO_POSITION_STATES - 1 {
            LENGTH_TO_POSITION_STATES - 1
        } else {
            length
        };
        let ghost before = *slot;
        let d = slot[state].decode(stream, range);
        proof {
            lemma2_to64();
            assert forall|i: int| 0 <= i < 4 implies (#[trigger] slot@[i]).wf() && slot@[i].spec_bits() == 6 by {
                if i != state {
                    assert(slot@[i] == before@[i]);
                }
            }
            assert(trees_view(slot@) =~= trees_view(before@).update(state as int, slot@[state as int]@));
        }
        let s = d?;
        if s < 4 {
            return Ok(s as u32);
        }
        assert(s < 64);
        assert(2 <= (s >> 1) <= 31 && (s >> 1) == s / 2 && (2 | (s & 1)) == 2 + s % 2) by (bit_vector)
            requires
                4 <= s < 64,
        ;
        let direct = (s >> 1) - 1;
        let ghost factor = 2 + s % 2;
        proof {
            if direct < 30 {
                vstd::arithmetic::power2::lemma_pow2_strictly_increases(direct as nat, 30);
            }
            assert(factor * pow2(direct as nat) <= 3 * 0x4000_0000) by (nonlinear_arith)
                requires
                    factor <= 3,
                    pow2(direct as nat) <= 0x4000_0000,
            ;
            vstd::bits::lemma_usize_shl_is_mul((2 | (s & 1)) as usize, direct);
        }
        let base = (2 | (s & 1)) << direct;
        if s < END_POSITION_MODEL_INDEX {
            assert(base >= s && base - s + (1usize << direct) <= 115 && direct < 6) by (bit_vector)
                requires
                    4 <= s < 14,
                    direct == (s >> 1) - 1,
                    base == (2 | (s & 1)) << direct,
            ;
            proof {
                vstd::bits::lemma_usize_shl_is_mul(1, direct);
            }
            assert(base == factor * pow2(direct as nat));
            let low = reverse(stream, position, base - s, direct, range)?;
            assert(base + low < 0x1_0000_0000) by (bit_vector)
                requires
                    4 <= s < 14,
                    direct == (s >> 1) - 1,
                    base == (2 | (s & 1)) << direct,
                    low < (1usize << direct),
            ;
            assert(distance_step(old(range)@, trees_view(old(slot)@), old(position)@, old(align)@, old(stream)@, length as nat)
                == Some((range@, trees_view(slot@), position@, align@, (base + low) as u32, stream@)));
            Ok((base + low) as u32)
        } else {
            assert(4 <= direct <= 30) by (bit_vector)
                requires
                    14 <= s < 64,
                    direct == (s >> 1) - 1,
            ;
            let k = direct - ALIGN_BITS;
            let middle = range.direct(stream, k)?;
            proof {
                vstd::arithmetic::power2::lemma_pow2_strictly_increases(k as nat, 32);
                vstd::bits::lemma_usize_shl_is_mul(1, k);
            }
            assert(base == factor * pow2(direct as nat));
            let low = align.reverse(stream, range)?;
            assert(base + (middle << 4usize) + low < 0x1_0000_0000 && (middle << 4usize) == middle * 16) by (bit_vector)
                requires
                    14 <= s < 64,
                    direct == (s >> 1) - 1,
                    base == (2 | (s & 1)) << direct,
                    k == direct - 4,
                    middle < (1usize << k),
                    low < 16,
            ;
            assert(distance_step(old(range)@, trees_view(old(slot)@), old(position)@, old(align)@, old(stream)@, length as nat)
                == Some((range@, trees_view(slot@), position@, align@, (base + middle * 16 + low) as u32, stream@)));
            Ok((base + (middle << ALIGN_BITS) + low) as u32)
        }
    }

    /// Decodes one literal byte and pushes it to the window and the sink. After a match
    /// (`state >= 7`) the bits of the byte at distance `rep0 + 1` select the probabilities
    /// until a decoded bit differs from it.
    fn literal(
        literal: &mut Probabilities,
        window: &mut Window,
        sink: &mut Cache,
        stream: &mut Stream,
        range: &mut Range,
        lc: u8,
        lp: u8,
        state: u32,
        rep0: u32,
    ) -> (r: Result<(), Error>)
        requires
            lc <= 8,
            lp <= 4,
            old(literal).wf(),
            old(literal)@.len() == 0x300 * pow2((lc + lp) as nat),
            old(window).wf(),
            old(sink).wf(),
            old(stream).wf(),
            old(range).wf(),
            rep0 < old(window).spec_size(),
        ensures
            final(literal).wf(),
            final(literal)@.len() == old(literal)@.len(),
            final(window).wf(),
            final(window).spec_size() == old(window).spec_size(),
            final(sink).wf(),
            final(sink).spec_limit() == old(sink).spec_limit(),
            final(stream).wf(),
            final(range).wf(),
            final(range)@.seeded == old(range)@.seeded,
            r is Err ==> final(window)@ == old(window)@ && final(sink)@ == old(sink)@,
            match literal_step(old(range)@, old(literal)@, old(stream)@, old(window)@, lc, lp, state, rep0) {
                Some((m, p, b, rest)) => r is Ok && final(range)@ == m && final(literal)@ == p
                    && final(stream)@ == rest && final(window)@ == old(window)@.push(b)
                    && final(sink)@ == old(sink)@.push(b),
                None => r == Err::<(), Error>(Error::Corrupted),
            },
    {
        let prev: u32 = if !window.is_empty() {
            window.get(1) as u32
        } else {
            0
        };
        let total = window.total();
        let k = (lc + lp) as u32;
        assert(1u32 << lp >= 1 && (1u32 << lp) <= 16 && 8 - lc as u32 <= 8) by (bit_vector)
            requires
                lp <= 4,
                lc <= 8,
        ;
        let mask: u32 = (1u32 << lp) - 1;
        let hi: u32 = (total & mask) << lc;
        let lo: u32 = prev >> (8 - lc as u32);
        assert(hi + lo < (1u32 << k)) by (bit_vector)
            requires
                lc <= 8,
                lp <= 4,
                k == lc + lp,
                prev < 256,
                mask == ((1u32 << lp) - 1) as u32,
                hi == (total & mask) << lc,
                lo == prev >> ((8 - lc) as u32),
        ;
        let lit = hi + lo;
        proof {
            lemma2_to64();
            if k < 12 {
                vstd::arithmetic::power2::lemma_pow2_strictly_increases(k as nat, 12);
            }
            vstd::bits::lemma_u32_shl_is_mul(1, k);
            assert(0x300 * lit + 0x300 <= 0x300 * pow2(k as nat) <= 0x300 * 4096) by (nonlinear_arith)
                requires
                    lit + 1 <= pow2(k as nat),
                    pow2(k as nat) <= 4096,
            ;
            assert(lit == literal_index(window@, lc, lp));
        }
        let base: usize = 0x300 * lit as usize;
        let ghost goal = if state >= 7 {
            literal_matched(range@, literal@, base as int, stream@, 1, byte_back(window@, rep0 + 1) as u32)
        } else {
            literal_plain(range@, literal@, base as int, stream@, 1)
        };
        let ghost outcome = literal_step(range@, literal@, stream@, window@, lc, lp, state, rep0);
        assert(outcome == match goal {
            Some((n, p, byte, rest)) => Some((n, p, (byte - 0x100) as u8, rest)),
            None => None,
        });

        // the decoded byte, with a leading 1 bit that marks how many bits are in
        let mut byte: u32 = 1;
        if state >= 7 {
            let mut match_byte = window.get(rep0 + 1) as u32;
            let mut same = true;
            while byte < 0x100 && same
                invariant
                    literal.wf(),
                    literal@.len() == old(literal)@.len(),
                    base + 0x300 <= literal@.len(),
                    base + 0x300 <= 0x300 * 4096,
                    range.wf(),
                    range@.seeded == old(range)@.seeded,
                    stream.wf(),
                    window.wf(),
                    sink.wf(),
                    window@ == old(window)@,
                    window.spec_size() == old(window).spec_size(),
                    sink@ == old(sink)@,
                    sink.spec_limit() == old(sink).spec_limit(),
                    rep0 < window.spec_size(),
                    1 <= byte < 0x200,
                    match_byte < 0x1_0000,
                    !same ==> byte >= 2,
                    outcome == literal_step(old(range)@, old(literal)@, old(stream)@, old(window)@, lc, lp, state, rep0),
                    outcome == match goal {
                        Some((n, p, byte, rest)) => Some((n, p, (byte - 0x100) as u8, rest)),
                        None => None,
                    },
                    goal == if same {
                        literal_matched(range@, literal@, base as int, stream@, byte as nat, match_byte)
                    } else {
                        literal_plain(range@, literal@, base as int, stream@, byte as nat)
                    },
                decreases 0x200 - byte,
            {
                let match_bit = (match_byte >> 7) & 1;
                assert(match_bit <= 1) by (bit_vector)
                    requires
                        match_bit == (match_byte >> 7) & 1,
                ;
                let next_match_byte = (match_byte << 1) & 0xffff;
                assert(next_match_byte < 0x1_0000) by (bit_vector)
                    requires
                        next_match_byte == (match_byte << 1) & 0xffff,
                ;
                assert((((1 + match_bit) as u32) << 8u32) + byte < 0x300
                    && (((1 + match_bit) as u32) << 8u32) == (1 + match_bit) * 256) by (bit_vector)
                    requires
                        match_bit <= 1,
                        byte < 0x100,
                ;
                let i = base + (((1 + match_bit) << 8) + byte) as usize;
                let bit = literal.bit(i, stream, range)?;
                let b: u32 = if bit { 1 } else { 0 };
                assert((byte << 1) | b == byte * 2 + b && (byte << 1) | b < 0x200) by (bit_vector)
                    requires
                        1 <= byte < 0x100,
                        b <= 1,
                ;
                byte = (byte << 1) | b;
                match_byte = next_match_byte;
                if match_bit != b {
                    same = false;
                }
            }
        }
        while byte < 0x100
            invariant
                literal.wf(),
                literal@.len() == old(literal)@.len(),
                base + 0x300 <= literal@.len(),
                base + 0x300 <= 0x300 * 4096,
                range.wf(),
                range@.seeded == old(range)@.seeded,
                stream.wf(),
                window.wf(),
                sink.wf(),
                window@ == old(window)@,
                window.spec_size() == old(window).spec_size(),
                sink@ == old(sink)@,
                sink.spec_limit() == old(sink).spec_limit(),
                1 <= byte < 0x200,
                outcome == literal_step(old(range)@, old(literal)@, old(stream)@, old(window)@, lc, lp, state, rep0),
                outcome == match goal {
                    Some((n, p, byte, rest)) => Some((n, p, (byte - 0x100) as u8, rest)),
                    None => None,
                },
                goal == literal_plain(range@, literal@, base as int, stream@, byte as nat),
            decreases 0x200 - byte,
        {
            let bit = literal.bit(base + byte as usize, stream, range)?;
            let b: u32 = if bit { 1 } else { 0 };
            assert((byte << 1) | b == byte * 2 + b && (byte << 1) | b < 0x200) by (bit_vector)
                requires
                    1 <= byte < 0x100,
                    b <= 1,
            ;
            byte = (byte << 1) | b;
        }
        assert(byte & 0xff == byte - 0x100 && byte & 0xff < 0x100) by (bit_vector)
            requires
                0x100 <= byte < 0x200,
        ;
        let out = (byte & 0xff) as u8;
        window.push(sink, out);
        Ok(())
    }

    /// Decodes one item (a literal, a repetition or a match) and returns the number of bytes
    /// it produced, or zero at the end of the stream. The bytes go to the window and the sink.
    #[verifier::rlimit(100)]
    #[verifier::spinoff_prover]
    pub fn decode(&mut self, sink: &mut Cache) -> (r: Result<usize, Error>)
        requires
            old(self).wf_engine(),
            old(sink).wf(),
        ensures
            stepped(*old(self), *final(self), *old(sink), *final(sink), r),
            // the end was already reached
            old(self).range_model().seeded && old(self).spec_properties().uncompressed == Some(old(self).spec_decoded())
                ==> r == Ok::<usize, Error>(0) && final(self).model() == old(self).model(),
            // the coder finished without the end marker of a stream of unknown length
            old(self).range_model().seeded && old(self).spec_properties().uncompressed is None
                && old(self).range_model().code == 0 ==> r == Err::<usize, Error>(Error::MissingMarker)
                && final(self).model() == old(self).model() && final(sink)@ == old(sink)@,
            r == Ok::<usize, Error>(0) ==> ended(*final(self)),
            follows(r, final(self).model(), decode_step(old(self).model(), old(self).spec_properties())),
    {
        reveal(decode_step);
        self.start()?;
        proof {
            if self.properties.uncompressed is Some {
                vstd::arithmetic::div_mod::lemma_small_mod(self.window@.len(), 0x1_0000_0000_0000_0000);
            }
        }
        match self.properties.uncompressed {
            Some(size) => {
                if self.decoded == size {
                    return Ok(0);
                }
            },
            None => {
                if self.range.is_finished() {
                    return Err(Error::MissingMarker);
                }
            },
        }
        self.decode_item(sink)
    }

    /// Seeds the range decoder, unless it is already.
    fn start(&mut self) -> (r: Result<(), Error>)
        requires
            old(self).wf_engine(),
        ensures
            final(self).wf_engine(),
            final(self).output() == old(self).output(),
            final(self).spec_properties() == old(self).spec_properties(),
            final(self).delivered() == old(self).delivered(),
            final(self).pending() == old(self).pending(),
            final(self).holds_same(*old(self)),
            final(self).spec_decoded() == old(self).spec_decoded(),
            old(self).range_model().seeded ==> *final(self) == *old(self),
            r is Ok ==> final(self).range_model().seeded,
            match start_step(old(self).model()) {
                Ok(m) => r is Ok && final(self).model() == m,
                Err(e) => r == Err::<(), Error>(e),
            },
    {
        if !self.range.is_seeded() {
            self.range.seed(&mut self.stream)?;
        }
        Ok(())
    }

    /// Decodes one item on a seeded coder: a literal, a repetition or a new match.
    #[verifier::rlimit(100)]
    #[verifier::spinoff_prover]
    fn decode_item(&mut self, sink: &mut Cache) -> (r: Result<usize, Error>)
        requires
            old(self).wf_engine(),
            old(sink).wf(),
            old(self).range_model().seeded,
            old(self).spec_properties().uncompressed matches Some(n) ==> old(self).spec_decoded() != n,
        ensures
            stepped(*old(self), *final(self), *old(sink), *final(sink), r),
            r == Ok::<usize, Error>(0) ==> ended(*final(self)),
            follows(r, final(self).model(), item_step(old(self).model(), old(self).spec_properties())),
    {
        let total = self.window.total();
        let pb = self.properties.pb;
        assert(1u32 << pb >= 1 && (1u32 << pb) <= 16) by (bit_vector)
            requires
                pb <= 4,
        ;
        let pos: u32 = total & ((1u32 << pb) - 1);
        assert(pos < 16) by (bit_vector)
            requires
                pb <= 4,
                pos == total & (((1u32 << pb) - 1) as u32),
        ;
        let p = pos as usize;
        let st = self.state as usize;
        assert((p << 4usize) + st < 256 && (p << 4usize) == p * 16) by (bit_vector)
            requires
                p < 16,
                st < 12,
        ;
        if !self.is_match.bit((p << POSITION_BITS_MAX) + st, &mut self.stream, &mut self.range)? {
            self.decode_literal(sink)
        } else if self.is_rep.bit(st, &mut self.stream, &mut self.range)? {
            self.decode_repetition(sink, p)
        } else {
            self.decode_match(sink, p)
        }
    }

    /// The literal branch of `decode`.
    fn decode_literal(&mut self, sink: &mut Cache) -> (r: Result<usize, Error>)
        requires
            old(self).wf_engine(),
            old(sink).wf(),
            old(self).range_model().seeded,
            old(self).spec_properties().uncompressed matches Some(n) ==> old(self).spec_decoded() != n,
        ensures
            stepped(*old(self), *final(self), *old(sink), *final(sink), r),
            r != Ok::<usize, Error>(0),
            follows(r, final(self).model(), literal_item(old(self).model(), old(self).spec_properties())),
    {
        if let Some(size) = self.properties.uncompressed {
            if self.decoded == size {
                return Err(Error::HasMoreData);
            }
        }
        let state = self.state;
        let rep0 = self.rep[0];
        let ghost before = self.window@;
        Self::literal(
            &mut self.literal,
            &mut self.window,
            sink,
            &mut self.stream,
            &mut self.range,
            self.properties.lc,
            self.properties.lp,
            state,
            rep0,
        )?;
        proof {
            lemma_count(before.len(), self.decoded, 1);
            if self.properties.uncompressed is Some {
                vstd::arithmetic::div_mod::lemma_small_mod(before.len(), 0x1_0000_0000_0000_0000);
            }
        }
        self.state = State::Literal(state).update();
        self.decoded = self.decoded.wrapping_add(1);
        proof {
            self.lemma_grown(before);
            assert(self.window@.skip(before.len() as int) =~= seq![self.window@.last()]);
            assert(self.wf_engine());
            assert(sink.wf());
            assert(self.delivered() == old(self).delivered());
            assert(self.pending() == old(self).pending());
            assert(self.output().take(old(self).output().len() as int) == old(self).output());
            assert(sink@ == old(sink)@ + self.output().skip(old(self).output().len() as int));
        }
        Ok(1)
    }

    /// The repetition branch of `decode`: a one-byte repetition, or a match at one of the four
    /// latest distances.
    #[verifier::rlimit(100)]
    #[verifier::spinoff_prover]
    fn decode_repetition(&mut self, sink: &mut Cache, pos: usize) -> (r: Result<usize, Error>)
        requires
            old(self).wf_engine(),
            old(sink).wf(),
            old(self).range_model().seeded,
            old(self).spec_properties().uncompressed matches Some(n) ==> old(self).spec_decoded() != n,
            pos < 16,
        ensures
            stepped(*old(self), *final(self), *old(sink), *final(sink), r),
            r != Ok::<usize, Error>(0),
            follows(r, final(self).model(), repetition_item(old(self).model(), old(self).spec_properties(), pos as nat)),
    {
        if let Some(size) = self.properties.uncompressed {
            if self.decoded == size {
                return Err(Error::HasMoreData);
            }
        }
        if self.window.is_empty() {
            return Err(Error::HasMoreData);
        }
        let state = self.state;
        let st = state as usize;
        assert((st << 4usize) + pos < 192 && (st << 4usize) == st * 16) by (bit_vector)
            requires
                pos < 16,
                st < 12,
        ;
        if !self.is_rep_g0.bit(st, &mut self.stream, &mut self.range)? {
            self.decode_rep0(sink, pos)
        } else {
            self.decode_picked(sink, pos)
        }
    }

    /// A match at the second, third or fourth latest distance, which moves to the front.
    fn decode_picked(&mut self, sink: &mut Cache, pos: usize) -> (r: Result<usize, Error>)
        requires
            old(self).wf_engine(),
            old(sink).wf(),
            old(self).range_model().seeded,
            pos < 16,
        ensures
            stepped(*old(self), *final(self), *old(sink), *final(sink), r),
            r != Ok::<usize, Error>(0),
            follows(r, final(self).model(), picked_item(old(self).model(), old(self).spec_properties(), pos as nat)),
    {
        let st = self.state as usize;
        self.pick_repetition(st)?;
        self.decode_repeat_length(sink, pos)
    }

    /// A repetition at the latest distance: one byte, or a match of a decoded length.
    #[verifier::rlimit(100)]
    #[verifier::spinoff_prover]
    fn decode_rep0(&mut self, sink: &mut Cache, pos: usize) -> (r: Result<usize, Error>)
        requires
            old(self).wf_engine(),
            old(sink).wf(),
            old(self).range_model().seeded,
            old(self).spec_properties().uncompressed matches Some(n) ==> old(self).spec_decoded() != n,
            old(self).output().len() > 0,
            pos < 16,
        ensures
            stepped(*old(self), *final(self), *old(sink), *final(sink), r),
            r != Ok::<usize, Error>(0),
            follows(r, final(self).model(), rep0_item(old(self).model(), old(self).spec_properties(), pos as nat)),
    {
        let state = self.state;
        let st = state as usize;
        assert((st << 4usize) + pos < 192 && (st << 4usize) == st * 16) by (bit_vector)
            requires
                pos < 16,
                st < 12,
        ;
        if !self.is_rep0_long.bit((st << POSITION_BITS_MAX) + pos, &mut self.stream, &mut self.range)? {
            let ghost before = self.window@;
            let byte = self.window.get(self.rep[0] + 1);
            self.window.push(sink, byte);
            proof {
                lemma_count(before.len(), self.decoded, 1);
                if self.properties.uncompressed is Some {
                    vstd::arithmetic::div_mod::lemma_small_mod(before.len(), 0x1_0000_0000_0000_0000);
                }
            }
            self.state = State::ShortRepetition(state).update();
            self.decoded = self.decoded.wrapping_add(1);
            proof {
                assert(self.window@.take(before.len() as int) =~= before);
                assert(self.window@.skip(before.len() as int) =~= seq![byte]);
                self.lemma_grown(before);
                assert(self.wf_engine());
                assert(sink.wf());
                assert(self.delivered() == old(self).delivered());
                assert(self.pending() == old(self).pending());
                assert(self.output().take(old(self).output().len() as int) == old(self).output());
                assert(sink@ == old(sink)@ + self.output().skip(old(self).output().len() as int));
            }
            Ok(1)
        } else {
            self.decode_repeat_length(sink, pos)
        }
    }

    /// The length of a repeated match, then the copy.
    fn decode_repeat_length(&mut self, sink: &mut Cache, pos: usize) -> (r: Result<usize, Error>)
        requires
            old(self).wf_engine(),
            old(sink).wf(),
            old(self).range_model().seeded,
            pos < 16,
        ensures
            stepped(*old(self), *final(self), *old(sink), *final(sink), r),
            r != Ok::<usize, Error>(0),
            follows(r, final(self).model(), repeat_length(old(self).model(), old(self).spec_properties(), pos as nat)),
    {
        let state = self.state;
        let length = self.repeat.decode(&mut self.stream, &mut self.range, pos)?;
        self.state = State::Repetition(state).update();
        self.copy_match(sink, length + MATCH_MINIMUM_LENGTH)
    }

    /// Moves the second, third or fourth latest distance to the front, as the model says.
    fn pick_repetition(&mut self, st: usize) -> (r: Result<(), Error>)
        requires
            old(self).wf_engine(),
            old(self).range_model().seeded,
            st == old(self).state,
        ensures
            final(self).wf_engine(),
            final(self).output() == old(self).output(),
            final(self).spec_properties() == old(self).spec_properties(),
            final(self).delivered() == old(self).delivered(),
            final(self).pending() == old(self).pending(),
            final(self).holds_same(*old(self)),
            final(self).range_model().seeded == old(self).range_model().seeded,
            final(self).spec_decoded() == old(self).spec_decoded(),
            final(self).state == old(self).state,
            match pick_step(old(self).model()) {
                Some(m) => r is Ok && final(self).model() == m,
                None => r == Err::<(), Error>(Error::Corrupted),
            },
    {
        let distance;
        if !self.is_rep_g1.bit(st, &mut self.stream, &mut self.range)? {
            distance = self.rep[1];
        } else {
            if !self.is_rep_g2.bit(st, &mut self.stream, &mut self.range)? {
                distance = self.rep[2];
            } else {
                distance = self.rep[3];
                self.rep[3] = self.rep[2];
            }
            self.rep[2] = self.rep[1];
        }
        self.rep[1] = self.rep[0];
        self.rep[0] = distance;
        assert(self.rep@ =~= pick_step(old(self).model()).unwrap().rep);
        Ok(())
    }

    /// The new match branch of `decode`, which also meets the end marker.
    fn decode_match(&mut self, sink: &mut Cache, pos: usize) -> (r: Result<usize, Error>)
        requires
            old(self).wf_engine(),
            old(sink).wf(),
            old(self).range_model().seeded,
            pos < 16,
        ensures
            stepped(*old(self), *final(self), *old(sink), *final(sink), r),
            r == Ok::<usize, Error>(0) ==> ended(*final(self)),
            follows(r, final(self).model(), match_item(old(self).model(), old(self).spec_properties(), pos as nat)),
    {
        let state = self.state;
        let length = self.length.decode(&mut self.stream, &mut self.range, pos)?;
        let distance = Self::distance(
            &mut self.slot,
            &mut self.position,
            &mut self.align,
            &mut self.stream,
            &mut self.range,
            length,
        )?;
        proof {
            if self.properties.uncompressed is Some {
                vstd::arithmetic::div_mod::lemma_small_mod(self.window@.len(), 0x1_0000_0000_0000_0000);
            }
        }
        if distance == END_MARKER {
            if self.range.is_finished() {
                if let Some(size) = self.properties.uncompressed {
                    if self.decoded != size {
                        return Err(Error::NeedMoreData);
                    }
                }
                return Ok(0);
            } else {
                return Err(Error::NeedMoreData);
            }
        }
        if distance >= self.properties.dictionary || !self.window.check(distance) {
            return Err(Error::Corrupted);
        }
        self.rep[3] = self.rep[2];
        self.rep[2] = self.rep[1];
        self.rep[1] = self.rep[0];
        self.rep[0] = distance;
        self.state = State::Match(state).update();
        assert(self.rep@ =~= seq![distance, old(self).rep[0], old(self).rep[1], old(self).rep[2]]);
        self.copy_match(sink, length + MATCH_MINIMUM_LENGTH)
    }

    /// Copies `length` bytes from the latest distance, unless that goes past the declared length.
    fn copy_match(&mut self, sink: &mut Cache, length: usize) -> (r: Result<usize, Error>)
        requires
            old(self).wf_engine(),
            old(sink).wf(),
            old(self).range_model().seeded,
            2 <= length <= 273,
        ensures
            stepped(*old(self), *final(self), *old(sink), *final(sink), r),
            r is Ok ==> r == Ok::<usize, Error>(length) && final(self).reps() == old(self).reps(),
            follows(r, final(self).model(), copy_item(old(self).model(), old(self).spec_properties(), length as nat)),
    {
        if let Some(size) = self.properties.uncompressed {
            if length as u64 > size - self.decoded {
                return Err(Error::HasMoreData);
            }
        }
        let ghost before = self.window@;
        proof {
            lemma_count(before.len(), self.decoded, length as u64);
            if self.properties.uncompressed is Some {
                vstd::arithmetic::div_mod::lemma_small_mod(before.len(), 0x1_0000_0000_0000_0000);
            }
        }
        self.window.copy(sink, self.rep[0] + 1, length);
        self.decoded = self.decoded.wrapping_add(length as u64);
        proof {
            lemma_copied_len(before, self.rep[0] + 1, length as nat);
            self.lemma_grown(before);
        }
        Ok(length)
    }

    /// After the window grew from `before`, the repeated distances stay valid and the count of
    /// decoded bytes follows the window.
    proof fn lemma_grown(&self, before: Seq<u8>)
        requires
            before.len() <= self.window@.len(),
            forall|i: int| 0 <= i < 4 ==> #[trigger] self.rep[i] < self.properties.dictionary
                && window_check(before, self.window.spec_size() as nat, self.rep[i] as int),
            self.window.spec_size() > 0,
        ensures
            forall|i: int| 0 <= i < 4 ==> #[trigger] self.rep[i] < self.properties.dictionary
                && window_check(self.window@, self.window.spec_size() as nat, self.rep[i] as int),
    {
        assert forall|i: int| 0 <= i < 4 implies #[trigger] self.rep[i] < self.properties.dictionary
            && window_check(self.window@, self.window.spec_size() as nat, self.rep[i] as int) by {
            lemma_check_grows(before, self.window@, self.window.spec_size() as nat, self.rep[i] as int);
        }
    }

    /// Reads decoded bytes into `buf` and returns how many. Bytes held back from the last
    /// decoded item come first, and alone; otherwise one item is decoded, and what does not fit
    /// is held back for the next read. Zero means the end of the stream, or an empty `buf`.
    pub fn read(&mut self, buf: &mut [u8]) -> (r: Result<usize, Error>)
        requires
            old(self).wf(),
        ensures
            final(self).wf(),
            final(buf)@.len() == old(buf)@.len(),
            final(self).spec_properties() == old(self).spec_properties(),
            final(self).origin() == old(self).origin(),
            old(self).failed() ==> final(self).failed(),
            !final(self).failed() ==> final(self).steps() >= old(self).steps(),
            r is Ok && !old(self).failed() ==> !final(self).failed(),
            old(buf)@.len() > 0 && old(self).pending().len() == 0 && r is Ok && !old(self).failed()
                ==> final(self).steps() == old(self).steps() + 1,
            old(self).pending().len() > 0 ==> final(self).steps() == old(self).steps(),
            old(buf)@.len() == 0 ==> r == Ok::<usize, Error>(0) && *final(self) == *old(self),
            // what is handed out, and what is held back
            old(buf)@.len() > 0 && old(self).pending().len() > 0 && r is Ok ==> ({
                let n = r.unwrap() as int;
                &&& final(buf)@.take(n) == old(self).pending().take(n)
                &&& final(self).pending() == old(self).pending().skip(n)
            }),
            old(buf)@.len() > 0 && old(self).pending().len() == 0 && r is Ok ==> ({
                let n = r.unwrap() as int;
                let start = old(self).output().len() as int;
                &&& final(buf)@.take(n) == final(self).output().subrange(start, start + n)
                &&& final(self).pending() == final(self).output().skip(start + n)
            }),
            r matches Ok(n) ==> n <= old(buf)@.len()
                && final(self).delivered() == old(self).delivered() + final(buf)@.take(n as int)
                && final(buf)@.skip(n as int) == old(buf)@.skip(n as int),
            r is Err ==> final(self).delivered() == old(self).delivered() && final(buf)@ == old(buf)@
                && final(self).failed(),
            // bytes held back are handed out without decoding
            old(buf)@.len() > 0 && old(self).pending().len() > 0 ==> r == Ok::<usize, Error>(
                vstd::math::min(old(buf)@.len() as int, old(self).pending().len() as int) as usize,
            ) && final(self).model() == old(self).model(),
            // otherwise one item is decoded, and as much of it as fits is handed out
            old(buf)@.len() > 0 && old(self).pending().len() == 0 ==> match decode_step(
                old(self).model(),
                old(self).spec_properties(),
            ) {
                Ok((m, _)) => r is Ok && final(self).model() == m,
                Err(e) => r == Err::<usize, Error>(e),
            },
            old(buf)@.len() > 0 && old(self).pending().len() == 0 && r is Ok ==> r.unwrap() == vstd::math::min(
                old(buf)@.len() as int,
                final(self).output().len() - old(self).output().len(),
            ),
            old(buf)@.len() > 0 && r == Ok::<usize, Error>(0) ==> ended(*final(self))
                && final(self).output() == old(self).output() && final(self).pending().len() == 0,
    {
        if buf.len() == 0 {
            return Ok(0);
        }
        if self.buffer.is_some() {
            return Ok(self.drain(buf));
        }
        self.fill(buf)
    }

    /// Hands out bytes held back, as many as fit.
    fn drain(&mut self, buf: &mut [u8]) -> (n: usize)
        requires
            old(self).wf(),
            old(buf)@.len() > 0,
            old(self).buffer is Some,
        ensures
            final(self).wf(),
            final(buf)@.len() == old(buf)@.len(),
            final(self).spec_properties() == old(self).spec_properties(),
            final(self).origin() == old(self).origin(),
            final(self).steps() == old(self).steps(),
            final(self).failed() == old(self).failed(),
            final(self).model() == old(self).model(),
            n == vstd::math::min(old(buf)@.len() as int, old(self).pending().len() as int),
            n > 0,
            final(buf)@.take(n as int) == old(self).pending().take(n as int),
            final(self).pending() == old(self).pending().skip(n as int),
            final(self).delivered() == old(self).delivered() + final(buf)@.take(n as int),
            final(buf)@.skip(n as int) == old(buf)@.skip(n as int),
    {
        let length = buf.len();
        let buffer = self.buffer.take().unwrap();
        let avail = buffer.len() - self.offset;
        let written = if avail < length { avail } else { length };
        let ghost old_delivered = self.delivered@;
        copy_into(buf, &buffer, self.offset, written);
        proof {
            assert(buf@.take(written as int) =~= buffer@.subrange(self.offset as int, self.offset + written));
        }
        self.offset = self.offset + written;
        self.delivered = Ghost(old_delivered + buf@.take(written as int));
        if self.offset == buffer.len() {
            self.buffer = None;
        } else {
            self.buffer = Some(buffer);
        }
        proof {
            assert(buf@.take(written as int) =~= old(self).pending().take(written as int));
            assert(self.pending() =~= old(self).pending().skip(written as int));
            assert(self.delivered@ + self.pending() =~= self.window@) by {
                assert(old(self).pending() =~= buffer@.subrange(old(self).offset as int, old(self).offset + written) + self.pending());
            }
        }
        written
    }

    /// Decodes one item into `buf`, and holds back what does not fit.
    #[verifier::rlimit(100)]
    #[verifier::spinoff_prover]
    fn fill(&mut self, buf: &mut [u8]) -> (r: Result<usize, Error>)
        requires
            old(self).wf(),
            old(buf)@.len() > 0,
            old(self).buffer is None,
        ensures
            final(self).wf(),
            final(buf)@.len() == old(buf)@.len(),
            final(self).spec_properties() == old(self).spec_properties(),
            final(self).origin() == old(self).origin(),
            old(self).failed() ==> final(self).failed(),
            !final(self).failed() ==> final(self).steps() == old(self).steps() + 1,
            r is Ok && !old(self).failed() ==> !final(self).failed(),
            r matches Ok(n) ==> n <= old(buf)@.len()
                && final(self).delivered() == old(self).delivered() + final(buf)@.take(n as int)
                && final(buf)@.skip(n as int) == old(buf)@.skip(n as int),
            r is Err ==> final(self).delivered() == old(self).delivered() && final(buf)@ == old(buf)@
                && final(self).failed(),
            match decode_step(old(self).model(), old(self).spec_properties()) {
                Ok((m, _)) => r is Ok && final(self).model() == m,
                Err(e) => r == Err::<usize, Error>(e),
            },
            r is Ok ==> r.unwrap() == vstd::math::min(
                old(buf)@.len() as int,
                final(self).output().len() - old(self).output().len(),
            ),
            r == Ok::<usize, Error>(0) ==> ended(*final(self))
                && final(self).output() == old(self).output() && final(self).pending().len() == 0,
    {
        let length = buf.len();
        let mut cache = Cache::new(length);
        let ghost before = *self;
        let ghost old_delivered = self.delivered@;
        let res = self.decode(&mut cache);
        proof {
            if res is Ok && !before.failed@ {
                self.steps = Ghost(before.steps@ + 1);
                assert forall|i: nat| i <= self.steps@ implies #[trigger] earlier(self.origin@, self.properties, i, self.window@) by {
                    if i < self.steps@ {
                        assert(earlier(before.origin@, before.properties, i, before.window@));
                        let a = after_steps(self.origin@, self.properties, i).unwrap().output;
                        assert(self.window@.take(before.window@.len() as int) == before.window@);
                        assert(self.window@.take(a.len() as int) =~= before.window@.take(a.len() as int));
                    }
                }
            } else {
                self.failed = Ghost(true);
            }
        }
        match res {
            Err(err) => {
                proof {
                    assert(self.output() == before.output());
                    assert(self.delivered@ + self.pending() =~= self.window@);
                }
                Err(err)
            },
            Ok(0) => {
                proof {
                    assert(self.output() =~= before.output());
                    assert(self.delivered@ + self.pending() =~= self.window@);
                }
                Ok(0)
            },
            Ok(n) => {
                let head = cache.written();
                let count = head.len();
                copy_into(buf, head, 0, count);
                proof {
                    assert(buf@.take(count as int) =~= head@);
                }
                self.delivered = Ghost(old_delivered + buf@.take(count as int));
                match cache.into_inner() {
                    Some(spill) => {
                        self.buffer = Some(spill);
                        self.offset = 0;
                        proof {
                            assert(self.pending() =~= spill@);
                            assert(cache@ =~= cache.head() + cache.spill());
                            assert(self.delivered@ + self.pending() =~= self.window@);
                        }
                        Ok(length)
                    },
                    None => {
                        proof {
                            assert(cache@ =~= cache.head() + cache.spill());
                            assert(self.delivered@ + self.pending() =~= self.window@);
                        }
                        Ok(count)
                    },
                }
            },
        }
    }

    /// Every probability of the model lies strictly between 0 and 2048, at all times.
    pub proof fn lemma_probabilities_in_range(&self)
        requires
            self.wf_engine(),
        ensures
            forall|i: int| 0 <= i < self.tables().len() ==> all_valid(#[trigger] self.tables()[i]),
    {
        self.literal.lemma_valid();
        self.position.lemma_valid();
        self.is_match.lemma_valid();
        self.is_rep.lemma_valid();
        self.is_rep_g0.lemma_valid();
        self.is_rep_g1.lemma_valid();
        self.is_rep_g2.lemma_valid();
        self.is_rep0_long.lemma_valid();
        self.align.lemma_valid();
        self.length.lemma_valid();
        self.repeat.lemma_valid();
        let flat = seq![
            self.literal@,
            self.position@,
            self.is_match@,
            self.is_rep@,
            self.is_rep_g0@,
            self.is_rep_g1@,
            self.is_rep_g2@,
            self.is_rep0_long@,
            self.align@,
        ];
        let slots = self.slot@.map_values(|t: BitTree| t@);
        assert forall|i: int| 0 <= i < self.tables().len() implies all_valid(#[trigger] self.tables()[i]) by {
            if i < 9 {
                assert(self.tables()[i] == flat[i]);
            } else if i < 13 {
                assert(self.tables()[i] == slots[i - 9]);
                self.slot@[i - 9].lemma_valid();
            } else if i < 13 + self.length.tables().len() {
                assert(self.tables()[i] == self.length.tables()[i - 13]);
            } else {
                assert(self.tables()[i] == self.repeat.tables()[i - 13 - self.length.tables().len()]);
            }
        }
    }

    /// The code of the range decoder stays below its range, at all times.
    pub proof fn lemma_code_below_range(&self)
        requires
            self.wf_engine(),
        ensures
            self.range_model().code < self.range_model().range,
    {
    }

    /// The bytes handed out so far, followed by the bytes held back, are exactly the bytes
    /// decoded so far, in order, whether or not a read has failed.
    pub proof fn lemma_handed_out_then_held_back(&self)
        requires
            self.wf(),
        ensures
            self.delivered() + self.pending() == self.output(),
    {
    }

    /// The model's parts are what the reader's accessors show.
    pub proof fn lemma_model_parts(&self)
        ensures
            self.model().output == self.output(),
            self.model().input == self.input(),
            self.model().range == self.range_model(),
            self.model().rep == self.reps(),
    {
    }

    /// Whatever lengths the reads asked for, the bytes handed out so far, followed by the bytes
    /// held back, are exactly the output of the first `steps()` decoding steps of the stream the
    /// reader was made from.
    pub proof fn lemma_reads_follow_output(&self)
        requires
            self.wf(),
            !self.failed(),
        ensures
            self.delivered() + self.pending() == self.output(),
            after_steps(self.origin(), self.spec_properties(), self.steps()) == Ok::<Model, Error>(self.model()),
    {
    }

    /// A reader made from the bytes `s`, after reads of any lengths none of which failed, has
    /// handed out and held back exactly the output of the first `steps()` decoding steps of `s`,
    /// from the initial model of its payload.
    pub proof fn lemma_reads_follow_stream(r: &Reader, s: Seq<u8>)
        requires
            r.wf(),
            !r.failed(),
            r.origin() == initial_model(s.skip(13), header_properties(s)),
            r.spec_properties() == header_properties(s),
        ensures
            after_steps(initial_model(s.skip(13), header_properties(s)), header_properties(s), r.steps()) is Ok,
            r.delivered() + r.pending() == after_steps(
                initial_model(s.skip(13), header_properties(s)),
                header_properties(s),
                r.steps(),
            ).unwrap().output,
    {
    }

    /// Two readers made from the same stream, each read with any lengths, have handed out
    /// prefixes of one sequence of bytes: the one that has made more decoding steps has decoded
    /// everything that the other has handed out, in the same order.
    pub proof fn lemma_read_lengths_do_not_matter(a: &Reader, b: &Reader)
        requires
            a.wf(),
            b.wf(),
            !a.failed(),
            !b.failed(),
            a.origin() == b.origin(),
            a.spec_properties() == b.spec_properties(),
            a.steps() <= b.steps(),
        ensures
            a.delivered().len() <= b.output().len(),
            b.output().take(a.delivered().len() as int) == a.delivered(),
    {
        assert(earlier(b.origin@, b.properties, a.steps@, b.window@));
        let out = a.window@;
        assert(a.delivered@ + a.pending() == out);
        assert(b.window@.take(a.delivered@.len() as int) =~= out.take(a.delivered@.len() as int));
        assert(out.take(a.delivered@.len() as int) =~= a.delivered@);
    }

    /// A stream of declared length that ended cleanly, once nothing is held back, has handed out
    /// exactly that many bytes.
    pub proof fn lemma_declared_length_met(&self)
        requires
            self.wf(),
            ended(*self),
            self.pending().len() == 0,
            self.spec_properties().uncompressed is Some,
        ensures
            self.delivered().len() == self.spec_properties().uncompressed.unwrap(),
    {
        assert(self.delivered() =~= self.delivered() + self.pending());
    }
}

} // verus!
