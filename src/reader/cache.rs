use vstd::prelude::*;

verus! {

/// A sink of decoded bytes in front of a caller's buffer of fixed length.
///
/// It keeps the bytes that go over that length so they can be extracted later and saved.
#[derive(Debug)]
pub struct Cache {
    cursor: Vec<u8>,
    limit: usize,
    buffer: Option<Vec<u8>>,
}

impl View for Cache {
    type V = Seq<u8>;

    /// Every byte written, in order.
    closed spec fn view(&self) -> Seq<u8> {
        match self.buffer {
            Some(b) => self.cursor@ + b@,
            None => self.cursor@,
        }
    }
}

impl Cache {
    /// The bytes that fit in the caller's buffer come first; the spill starts only once it is full.
    pub closed spec fn wf(&self) -> bool {
        &&& self.cursor@.len() <= self.limit
        &&& self.buffer is Some ==> self.cursor@.len() == self.limit
    }

    /// The length of the caller's buffer.
    pub closed spec fn spec_limit(&self) -> nat {
        self.limit as nat
    }

    /// The bytes that fit in the caller's buffer.
    pub open spec fn head(&self) -> Seq<u8> {
        self@.take(vstd::math::min(self@.len() as int, self.spec_limit() as int))
    }

    /// The bytes that went over the caller's buffer.
    pub open spec fn spill(&self) -> Seq<u8> {
        self@.skip(vstd::math::min(self@.len() as int, self.spec_limit() as int))
    }

    /// Creates a new cache for a caller's buffer of `limit` bytes.
    pub fn new(limit: usize) -> (r: Cache)
        ensures
            r.wf(),
            r@ == Seq::<u8>::empty(),
            r.spec_limit() == limit,
    {
        Cache { cursor: Vec::new(), limit, buffer: None }
    }

    /// Writes one byte: into the caller's part while there is room, else into the spill.
    pub fn write(&mut self, byte: u8)
        requires
            old(self).wf(),
        ensures
            final(self).wf(),
            final(self)@ == old(self)@.push(byte),
            final(self).spec_limit() == old(self).spec_limit(),
    {
        if self.cursor.len() < self.limit {
            self.cursor.push(byte);
        } else {
            match self.buffer.take() {
                Some(mut b) => {
                    b.push(byte);
                    self.buffer = Some(b);
                },
                None => {
                    let mut b: Vec<u8> = Vec::new();
                    b.push(byte);
                    self.buffer = Some(b);
                },
            }
        }
        assert(self@ =~= old(self)@.push(byte));
    }

    /// The bytes that fit in the caller's buffer.
    pub fn written(&self) -> (r: &Vec<u8>)
        requires
            self.wf(),
        ensures
            r@ == self.head(),
    {
        assert(self.cursor@ =~= self.head());
        &self.cursor
    }

    /// Returns the spill, if any byte went over the caller's buffer.
    pub fn into_inner(self) -> (r: Option<Vec<u8>>)
        requires
            self.wf(),
        ensures
            r is None <==> self.spill().len() == 0,
            r matches Some(b) ==> b@ == self.spill(),
    {
        match self.buffer {
            Some(b) => {
                assert(b@ =~= self.spill());
                if b.len() == 0 {
                    None
                } else {
                    Some(b)
                }
            },
            None => None,
        }
    }
}

} // verus!
