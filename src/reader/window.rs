use vstd::prelude::*;

use super::cache::Cache;

verus! {

/// The byte `d` places back from the end of `h` (`d == 1` is the last byte); zero where
/// nothing was written that far back.
pub open spec fn byte_back(h: Seq<u8>, d: int) -> u8 {
    if 1 <= d <= h.len() {
        h[h.len() - d]
    } else {
        0
    }
}

/// `n` bytes copied from `d` places back, one at a time, so that a copy longer than `d`
/// repeats its pattern: each appended byte is the one `d` places before it.
pub open spec fn copied(h: Seq<u8>, d: int, n: nat) -> Seq<u8>
    decreases n,
{
    if n == 0 {
        h
    } else {
        let g = copied(h, d, (n - 1) as nat);
        g.push(byte_back(g, d))
    }
}

/// Taking a whole sequence gives it back.
pub broadcast proof fn lemma_take_all(s: Seq<u8>)
    ensures
        #[trigger] s.take(s.len() as int) == s,
{
    assert(s.take(s.len() as int) =~= s);
}

/// Appending what follows the end of a sequence appends nothing.
pub broadcast proof fn lemma_append_skip_all(t: Seq<u8>, s: Seq<u8>)
    ensures
        #[trigger] (t + s.skip(s.len() as int)) == t,
{
    assert(t + s.skip(s.len() as int) =~= t);
}

/// A sliding window: the last `size` bytes decoded, as the dictionary of back references.
pub struct Window {
    buffer: Vec<u8>,
    size: u32,
    position: u32,
    total: u32,
    full: bool,
    history: Ghost<Seq<u8>>,
}

impl View for Window {
    type V = Seq<u8>;

    /// Every byte pushed so far, in order.
    closed spec fn view(&self) -> Seq<u8> {
        self.history@
    }
}

impl Window {
    /// The slot that holds the byte `d` places back.
    closed spec fn slot(&self, d: int) -> int {
        if d <= self.position {
            self.position - d
        } else {
            self.size - d + self.position
        }
    }

    /// The buffer holds, in its circular order, the last `size` bytes of the history.
    pub closed spec fn wf(&self) -> bool {
        &&& self.size > 0
        &&& self.buffer@.len() == self.size
        &&& self.position == self.history@.len() % (self.size as nat)
        &&& self.full == (self.history@.len() >= self.size)
        &&& self.total == self.history@.len() % 0x1_0000_0000
        &&& forall|d: int| 1 <= d <= self.size ==> #[trigger] self.buffer@[self.slot(d)] == byte_back(self.history@, d)
    }

    /// The size, as a spec value.
    pub closed spec fn spec_size(&self) -> u32 {
        self.size
    }

    /// The position in the circular buffer at which the next byte goes.
    pub open spec fn spec_position(&self) -> nat {
        self@.len() % (self.spec_size() as nat)
    }

    /// Whether the buffer has wrapped at least once.
    pub open spec fn spec_full(&self) -> bool {
        self@.len() >= self.spec_size()
    }

    /// Whether a repeated distance `d` (zero for the last byte) may be copied.
    pub open spec fn spec_check(&self, d: int) -> bool {
        d <= self.spec_position() || self.spec_full()
    }

    /// Creates a sliding window with the given size.
    pub fn new(size: u32) -> (r: Window)
        requires
            size > 0,
        ensures
            r.wf(),
            r@ == Seq::<u8>::empty(),
            r.spec_size() == size,
    {
        let r = Window {
            buffer: vec![0u8; size as usize],
            size,
            position: 0,
            total: 0,
            full: false,
            history: Ghost(Seq::empty()),
        };
        proof {
            vstd::arithmetic::div_mod::lemma_small_mod(0, size as nat);
            vstd::arithmetic::div_mod::lemma_small_mod(0, 0x1_0000_0000);
        }
        assert forall|d: int| 1 <= d <= r.size implies #[trigger] r.buffer@[r.slot(d)] == byte_back(r.history@, d) by {
            assert(0 <= r.slot(d) < size);
        }
        r
    }

    /// Gets the size.
    pub fn size(&self) -> (r: u32)
        ensures
            r == self.spec_size(),
    {
        self.size
    }

    /// Gets the current position.
    pub fn position(&self) -> (r: u32)
        requires
            self.wf(),
        ensures
            r == self.spec_position(),
    {
        self.position
    }

    /// Gets the number of bytes pushed, modulo `2^32`.
    pub fn total(&self) -> (r: u32)
        requires
            self.wf(),
        ensures
            r == self@.len() % 0x1_0000_0000,
    {
        self.total
    }

    /// Checks if the window is full.
    pub fn is_full(&self) -> (r: bool)
        requires
            self.wf(),
        ensures
            r == self.spec_full(),
    {
        self.full
    }

    /// Checks if the window is empty.
    pub fn is_empty(&self) -> (r: bool)
        requires
            self.wf(),
        ensures
            r == (self@.len() == 0),
    {
        proof {
            if self.history@.len() < self.size {
                vstd::arithmetic::div_mod::lemma_small_mod(self.history@.len(), self.size as nat);
            }
        }
        self.position == 0 && !self.is_full()
    }

    /// The byte `distance` places back; zero where nothing was written yet.
    pub fn get(&self, distance: u32) -> (r: u8)
        requires
            self.wf(),
            1 <= distance <= self.spec_size(),
        ensures
            r == byte_back(self@, distance as int),
    {
        assert(self.buffer@[self.slot(distance as int)] == byte_back(self.history@, distance as int));
        if distance <= self.position {
            self.buffer[(self.position - distance) as usize]
        } else {
            self.buffer[(self.size - distance + self.position) as usize]
        }
    }

    proof fn lemma_next_mod(n: nat, s: nat, p: nat)
        requires
            s > 0,
            p == n % s,
        ensures
            (n + 1) % s == if p + 1 < s { p + 1 } else { 0 },
    {
        vstd::arithmetic::div_mod::lemma_fundamental_div_mod(n as int, s as int);
        vstd::arithmetic::div_mod::lemma_mod_bound(n as int, s as int);
        let q = n as int / s as int;
        vstd::arithmetic::mul::lemma_mul_is_commutative(s as int, q);
        if p + 1 < s {
            vstd::arithmetic::div_mod::lemma_fundamental_div_mod_converse((n + 1) as int, s as int, q, (p + 1) as int);
        } else {
            assert((n + 1) as int == (q + 1) * s as int) by (nonlinear_arith)
                requires
                    n as int == s as int * q + p,
                    p + 1 == s,
            ;
            vstd::arithmetic::div_mod::lemma_fundamental_div_mod_converse((n + 1) as int, s as int, q + 1, 0);
        }
    }

    /// Pushes a byte to the window and the given sink.
    pub fn push(&mut self, sink: &mut Cache, byte: u8)
        requires
            old(self).wf(),
            old(sink).wf(),
        ensures
            final(self).wf(),
            final(self)@ == old(self)@.push(byte),
            final(self).spec_size() == old(self).spec_size(),
            final(sink).wf(),
            final(sink)@ == old(sink)@.push(byte),
            final(sink).spec_limit() == old(sink).spec_limit(),
    {
        sink.write(byte);
        let ghost old_w = *self;
        let ghost h = self.history@;
        self.buffer[self.position as usize] = byte;
        self.position = self.position + 1;
        self.total = self.total.wrapping_add(1);
        if self.position == self.size {
            self.position = 0;
            self.full = true;
        }
        self.history = Ghost(h.push(byte));
        proof {
            Self::lemma_next_mod(h.len(), self.size as nat, old_w.position as nat);
            Self::lemma_next_mod(h.len(), 0x1_0000_0000, old_w.total as nat);
            if h.len() < self.size {
                vstd::arithmetic::div_mod::lemma_small_mod(h.len(), self.size as nat);
            }
            assert forall|d: int| 1 <= d <= self.size implies #[trigger] self.buffer@[self.slot(d)] == byte_back(self.history@, d) by {
                if d == 1 {
                    assert(self.slot(d) == old_w.position);
                } else {
                    assert(self.slot(d) == old_w.slot(d - 1));
                    assert(old_w.buffer@[old_w.slot(d - 1)] == byte_back(h, d - 1));
                    assert(old_w.slot(d - 1) != old_w.position);
                }
            }
        }
    }

    /// Pushes `length` bytes from the given distance into the window and the given sink.
    pub fn copy(&mut self, sink: &mut Cache, distance: u32, length: usize)
        requires
            old(self).wf(),
            old(sink).wf(),
            1 <= distance <= old(self).spec_size(),
        ensures
            final(self).wf(),
            final(self)@ == copied(old(self)@, distance as int, length as nat),
            final(self).spec_size() == old(self).spec_size(),
            final(sink).wf(),
            final(sink)@ == old(sink)@ + final(self)@.skip(old(self)@.len() as int),
            final(sink).spec_limit() == old(sink).spec_limit(),
    {
        let mut i: usize = 0;
        while i < length
            invariant
                self.wf(),
                sink.wf(),
                i <= length,
                1 <= distance <= self.spec_size(),
                self.spec_size() == old(self).spec_size(),
                sink.spec_limit() == old(sink).spec_limit(),
                self@ == copied(old(self)@, distance as int, i as nat),
                self@.len() == old(self)@.len() + i,
                sink@ == old(sink)@ + self@.skip(old(self)@.len() as int),
            decreases length - i,
        {
            let b = self.get(distance);
            let ghost prev = self@;
            self.push(sink, b);
            assert(self@.skip(old(self)@.len() as int) =~= prev.skip(old(self)@.len() as int).push(b));
            i = i + 1;
        }
    }

    /// Checks if the distance is valid.
    pub fn check(&self, distance: u32) -> (r: bool)
        requires
            self.wf(),
        ensures
            r == self.spec_check(distance as int),
    {
        distance <= self.position || self.full
    }
}

} // verus!
