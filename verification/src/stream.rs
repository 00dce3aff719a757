//! The byte-stream model: an append-only sink (`Vec<u8>`), a consuming
//! source with a cursor, and little-endian integer transport.

use vstd::bytes::spec_u16_from_le_bytes;
use vstd::bytes::spec_u16_to_le_bytes;
use vstd::bytes::spec_u32_from_le_bytes;
use vstd::bytes::spec_u32_to_le_bytes;
use vstd::bytes::spec_u64_from_le_bytes;
use vstd::bytes::spec_u64_to_le_bytes;
use vstd::bytes::u16_from_le_bytes;
use vstd::bytes::u16_to_le_bytes;
use vstd::bytes::u32_from_le_bytes;
use vstd::bytes::u32_to_le_bytes;
use vstd::bytes::u64_from_le_bytes;
use vstd::bytes::u64_to_le_bytes;
use vstd::prelude::*;
use vstd::slice::slice_subrange;

verus! {

/// A failure surfaced by the codec. All errors are fatal for the current
/// traversal; the stream position is left indeterminate and recovery policy
/// belongs to the caller.
#[derive(Copy, Clone, PartialEq, Eq, Structural, Debug)]
pub enum Error {
    /// The underlying byte source ended before the requested bytes were
    /// available (short read).
    IoFailure,
    /// A structural rule of the wire format was violated: a nonzero value
    /// where a zero terminator was expected, a byte count that is not a
    /// multiple of the element size, or a nonzero offset on a single-value
    /// read.
    MalformedFraming,
    /// The decoded type descriptor does not match the shape and primitive
    /// kind the caller asked to decode into.
    ShapeMismatch,
    /// A computed destination index exceeds the addressable range of the
    /// destination array.
    IndexOverflow,
}

/// A byte source: the saved bytes of a stream and a cursor. Reads consume
/// bytes in order; a read past the end fails with [`Error::IoFailure`] and
/// consumes nothing.
pub struct Source {
    /// The bytes of the stream.
    pub data: Vec<u8>,
    /// The index of the next unread byte.
    pub pos: usize,
}

impl Source {
    /// Creates a source that reads `data` from the start.
    pub fn new(data: Vec<u8>) -> (s: Source)
        ensures
            s.data@ == data@,
            s.pos == 0,
    {
        Source { data, pos: 0 }
    }

    /// The number of bytes left to read.
    pub fn remaining(&self) -> (n: usize)
        ensures
            n == self.spec_remaining(),
    {
        if self.pos <= self.data.len() {
            self.data.len() - self.pos
        } else {
            0
        }
    }

    /// The number of bytes left to read.
    pub open spec fn spec_remaining(&self) -> int {
        if self.pos <= self.data@.len() {
            self.data@.len() - self.pos
        } else {
            0
        }
    }
}

/// Appends the two little-endian bytes of `v` to the sink.
pub fn write_u16_le(v: u16, w: &mut Vec<u8>)
    ensures
        final(w)@ == old(w)@ + spec_u16_to_le_bytes(v),
{
    let mut bs = u16_to_le_bytes(v);
    w.append(&mut bs);
}

/// Appends the four little-endian bytes of `v` to the sink.
pub fn write_u32_le(v: u32, w: &mut Vec<u8>)
    ensures
        final(w)@ == old(w)@ + spec_u32_to_le_bytes(v),
{
    let mut bs = u32_to_le_bytes(v);
    w.append(&mut bs);
}

/// Appends the eight little-endian bytes of `v` to the sink.
pub fn write_u64_le(v: u64, w: &mut Vec<u8>)
    ensures
        final(w)@ == old(w)@ + spec_u64_to_le_bytes(v),
{
    let mut bs = u64_to_le_bytes(v);
    w.append(&mut bs);
}

/// Reads one byte, advancing the cursor.
pub fn read_u8_le(r: &mut Source) -> (res: Result<u8, Error>)
    ensures
        final(r).data@ == old(r).data@,
        old(r).pos + 1 <= old(r).data@.len() ==> {
            &&& res == Ok::<u8, Error>(old(r).data@[old(r).pos as int])
            &&& final(r).pos == old(r).pos + 1
        },
        old(r).pos + 1 > old(r).data@.len() ==> {
            &&& res == Err::<u8, Error>(Error::IoFailure)
            &&& final(r).pos == old(r).pos
        },
{
    let n = r.data.len();
    if r.pos < n {
        let b = r.data[r.pos];
        r.pos = r.pos + 1;
        Ok(b)
    } else {
        Err(Error::IoFailure)
    }
}

/// Reads a little-endian `u16`, advancing the cursor.
pub fn read_u16_le(r: &mut Source) -> (res: Result<u16, Error>)
    ensures
        final(r).data@ == old(r).data@,
        old(r).pos + 2 <= old(r).data@.len() ==> {
            &&& res == Ok::<u16, Error>(
                spec_u16_from_le_bytes(
                    old(r).data@.subrange(old(r).pos as int, old(r).pos + 2),
                ),
            )
            &&& final(r).pos == old(r).pos + 2
        },
        old(r).pos + 2 > old(r).data@.len() ==> {
            &&& res == Err::<u16, Error>(Error::IoFailure)
            &&& final(r).pos == old(r).pos
        },
{
    let n = r.data.len();
    if r.pos <= n && n - r.pos >= 2 {
        let s = slice_subrange(r.data.as_slice(), r.pos, r.pos + 2);
        let v = u16_from_le_bytes(s);
        r.pos = r.pos + 2;
        Ok(v)
    } else {
        Err(Error::IoFailure)
    }
}

/// Reads a little-endian `u32`, advancing the cursor.
pub fn read_u32_le(r: &mut Source) -> (res: Result<u32, Error>)
    ensures
        final(r).data@ == old(r).data@,
        old(r).pos + 4 <= old(r).data@.len() ==> {
            &&& res == Ok::<u32, Error>(
                spec_u32_from_le_bytes(
                    old(r).data@.subrange(old(r).pos as int, old(r).pos + 4),
                ),
            )
            &&& final(r).pos == old(r).pos + 4
        },
        old(r).pos + 4 > old(r).data@.len() ==> {
            &&& res == Err::<u32, Error>(Error::IoFailure)
            &&& final(r).pos == old(r).pos
        },
{
    let n = r.data.len();
    if r.pos <= n && n - r.pos >= 4 {
        let s = slice_subrange(r.data.as_slice(), r.pos, r.pos + 4);
        let v = u32_from_le_bytes(s);
        r.pos = r.pos + 4;
        Ok(v)
    } else {
        Err(Error::IoFailure)
    }
}

/// Reads a little-endian `u64`, advancing the cursor.
pub fn read_u64_le(r: &mut Source) -> (res: Result<u64, Error>)
    ensures
        final(r).data@ == old(r).data@,
        old(r).pos + 8 <= old(r).data@.len() ==> {
            &&& res == Ok::<u64, Error>(
                spec_u64_from_le_bytes(
                    old(r).data@.subrange(old(r).pos as int, old(r).pos + 8),
                ),
            )
            &&& final(r).pos == old(r).pos + 8
        },
        old(r).pos + 8 > old(r).data@.len() ==> {
            &&& res == Err::<u64, Error>(Error::IoFailure)
            &&& final(r).pos == old(r).pos
        },
{
    let n = r.data.len();
    if r.pos <= n && n - r.pos >= 8 {
        let s = slice_subrange(r.data.as_slice(), r.pos, r.pos + 8);
        let v = u64_from_le_bytes(s);
        r.pos = r.pos + 8;
        Ok(v)
    } else {
        Err(Error::IoFailure)
    }
}

} // verus!
