use vstd::prelude::*;

verus! {

/// A source of compressed bytes held in memory, read from the front.
#[derive(Debug)]
pub struct Stream {
    data: Vec<u8>,
    pos: usize,
}

impl View for Stream {
    type V = Seq<u8>;

    /// The bytes that have not been read yet.
    closed spec fn view(&self) -> Seq<u8> {
        self.data@.subrange(self.pos as int, self.data@.len() as int)
    }
}

impl Stream {
    /// Well-formedness: the cursor lies within the data.
    pub closed spec fn wf(&self) -> bool {
        self.pos <= self.data@.len()
    }

    /// A stream over the given bytes, positioned at the first.
    pub fn new(data: Vec<u8>) -> (r: Stream)
        ensures
            r.wf(),
            r@ == data@,
    {
        let r = Stream { data, pos: 0 };
        assert(r@ =~= data@);
        r
    }

    /// Reads one byte, or `None` at the end of the data.
    pub fn read_u8(&mut self) -> (r: Option<u8>)
        requires
            old(self).wf(),
        ensures
            final(self).wf(),
            old(self)@.len() == 0 ==> r is None && final(self)@ == old(self)@,
            old(self)@.len() > 0 ==> r == Some(old(self)@[0]) && final(self)@ == old(self)@.skip(1),
    {
        if self.pos < self.data.len() {
            let b = self.data[self.pos];
            self.pos = self.pos + 1;
            assert(self@ =~= old(self)@.skip(1));
            Some(b)
        } else {
            None
        }
    }

    /// The bytes that have not been read yet.
    pub fn into_remaining(self) -> (r: Vec<u8>)
        requires
            self.wf(),
        ensures
            r@ == self@,
    {
        let mut r: Vec<u8> = Vec::new();
        let mut i: usize = self.pos;
        while i < self.data.len()
            invariant
                self.pos <= i <= self.data@.len(),
                r@ == self.data@.subrange(self.pos as int, i as int),
            decreases self.data@.len() - i,
        {
            r.push(self.data[i]);
            i = i + 1;
            assert(r@ =~= self.data@.subrange(self.pos as int, i as int));
        }
        r
    }
}

} // verus!
