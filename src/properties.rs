use vstd::prelude::*;
use byteorder::ByteOrder;

use crate::consts::MINIMUM_DICTIONARY_SIZE;
use crate::error::Error;
use crate::reader::Stream;

verus! {

/// The value of four bytes, least significant first.
pub open spec fn le_u32(b: Seq<u8>) -> int {
    b[0] as int + 0x100 * b[1] as int + 0x1_0000 * b[2] as int + 0x100_0000 * b[3] as int
}

/// The value of eight bytes, least significant first.
pub open spec fn le_u64(b: Seq<u8>) -> int {
    le_u32(b) + 0x1_0000_0000 * le_u32(b.skip(4))
}

/// Relies on `byteorder::LittleEndian::read_u32`: the first four bytes, least significant first.
#[verifier::external_body]
fn read_le_u32(b: &[u8]) -> (r: u32)
    requires
        b@.len() >= 4,
    ensures
        r == le_u32(b@),
{
    byteorder::LittleEndian::read_u32(b)
}

/// Relies on `byteorder::LittleEndian::read_u64`: the first eight bytes, least significant first.
#[verifier::external_body]
fn read_le_u64(b: &[u8]) -> (r: u64)
    requires
        b@.len() >= 8,
    ensures
        r == le_u64(b@),
{
    byteorder::LittleEndian::read_u64(b)
}

/// LZMA model properties.
#[derive(PartialEq, Eq, Clone, Copy, Debug, Structural)]
pub struct Properties {
    /// Literal context bits.
    pub lc: u8,
    /// Literal position bits.
    pub lp: u8,
    /// Position bits.
    pub pb: u8,
    /// Dictionary size.
    pub dictionary: u32,
    /// Uncompressed size if present.
    pub uncompressed: Option<u64>,
}

impl Properties {
    /// The ranges that a parsed header gives.
    pub open spec fn valid(&self) -> bool {
        &&& self.lc <= 8
        &&& self.lp <= 4
        &&& self.pb <= 4
        &&& self.dictionary >= MINIMUM_DICTIONARY_SIZE
    }
}

/// The properties that a header of thirteen bytes, whose first byte is below `225`, describes.
pub open spec fn header_properties(h: Seq<u8>) -> Properties {
    let d = h[0];
    let dict = le_u32(h.subrange(1, 5));
    let size = le_u64(h.subrange(5, 13));
    Properties {
        lc: d % 9,
        lp: (d / 9) % 5,
        pb: (d / 9) / 5,
        dictionary: if dict < MINIMUM_DICTIONARY_SIZE { MINIMUM_DICTIONARY_SIZE } else { dict as u32 },
        uncompressed: if size == 0xffff_ffff_ffff_ffff { None } else { Some(size as u64) },
    }
}

/// Takes `n` bytes off the front of the stream, or `None` (with the stream emptied) if it holds fewer.
fn take(stream: &mut Stream, n: usize) -> (r: Option<Vec<u8>>)
    requires
        old(stream).wf(),
    ensures
        final(stream).wf(),
        old(stream)@.len() < n ==> r is None,
        old(stream)@.len() >= n ==> (r matches Some(v) && v@ == old(stream)@.take(n as int)
            && final(stream)@ == old(stream)@.skip(n as int)),
{
    let mut v: Vec<u8> = Vec::new();
    let mut i: usize = 0;
    while i < n
        invariant
            stream.wf(),
            i <= n,
            old(stream)@.len() >= i,
            v@ == old(stream)@.take(i as int),
            stream@ == old(stream)@.skip(i as int),
        decreases n - i,
    {
        match stream.read_u8() {
            Some(b) => {
                v.push(b);
                assert(v@ =~= old(stream)@.take(i + 1));
                assert(stream@ =~= old(stream)@.skip(i + 1));
            },
            None => return None,
        }
        i = i + 1;
    }
    Some(v)
}

/// Read the model properties from a stream.
pub fn read(stream: &mut Stream) -> (r: Result<Properties, Error>)
    requires
        old(stream).wf(),
    ensures
        final(stream).wf(),
        old(stream)@.len() == 0 ==> r == Err::<Properties, Error>(Error::IO),
        old(stream)@.len() >= 1 && old(stream)@[0] >= 225 ==> r == Err::<Properties, Error>(Error::InvalidProperties)
            && final(stream)@ == old(stream)@.skip(1),
        old(stream)@.len() >= 1 && old(stream)@[0] < 225 && old(stream)@.len() < 13 ==> r == Err::<Properties, Error>(Error::IO),
        old(stream)@.len() >= 13 && old(stream)@[0] < 225 ==> r == Ok::<Properties, Error>(header_properties(old(stream)@))
            && final(stream)@ == old(stream)@.skip(13),
        r matches Ok(p) ==> p.valid(),
{
    let ghost h = stream@;
    let d = match stream.read_u8() {
        Some(b) => b,
        None => return Err(Error::IO),
    };
    if d >= 9 * 5 * 5 {
        return Err(Error::InvalidProperties);
    }
    let lc = d % 9;
    let d = d / 9;
    let pb = d / 5;
    let lp = d % 5;

    let dict_bytes = match take(stream, 4) {
        Some(v) => v,
        None => return Err(Error::IO),
    };
    let n = read_le_u32(dict_bytes.as_slice());
    let dictionary = if n < MINIMUM_DICTIONARY_SIZE { MINIMUM_DICTIONARY_SIZE } else { n };

    let size_bytes = match take(stream, 8) {
        Some(v) => v,
        None => return Err(Error::IO),
    };
    let size = read_le_u64(size_bytes.as_slice());
    let uncompressed = if size == 0xffff_ffff_ffff_ffff { None } else { Some(size) };

    proof {
        assert(dict_bytes@ =~= h.subrange(1, 5));
        assert(size_bytes@ =~= h.subrange(5, 13));
        assert(h.skip(1).skip(4).skip(8) =~= h.skip(13));
    }
    Ok(Properties { lc, lp, pb, dictionary, uncompressed })
}

} // verus!
