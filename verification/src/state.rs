//! The ordered read/write protocol: a linear progression of capability
//! tokens, each usable exactly once, that makes it impossible to emit or
//! consume the five-field block framing out of order.

use crate::stream::read_u16_le;
use crate::stream::read_u64_le;
use crate::stream::write_u16_le;
use crate::stream::write_u64_le;
use crate::stream::Error;
use crate::stream::Source;
use core::marker::PhantomData;
use vstd::bytes::spec_u16_from_le_bytes;
use vstd::bytes::spec_u16_to_le_bytes;
use vstd::bytes::spec_u64_from_le_bytes;
use vstd::bytes::spec_u64_to_le_bytes;
use vstd::prelude::*;

verus! {

/// Type format state.
#[derive(Debug)]
pub struct TypeFormat;

/// Property Id state.
#[derive(Debug)]
pub struct PropertyId;

/// Bytes state.
#[derive(Debug)]
pub struct Bytes;

/// Offset instance id state.
#[derive(Debug)]
pub struct OffsetInstanceId;

/// Data state.
#[derive(Debug)]
pub struct Data;

/// Stores the state for writing and reading.
///
/// The type parameter names the protocol phase the traversal is in; each
/// operation consumes the token and returns the token of the next phase, so
/// a block's fields can only be written or read in wire order.
#[derive(Debug)]
pub struct State<T = TypeFormat>(PhantomData<T>);

/// The little-endian `u16` stored at `pos` in `data`.
pub open spec fn spec_u16_at(data: Seq<u8>, pos: int) -> u16 {
    spec_u16_from_le_bytes(data.subrange(pos, pos + 2))
}

/// The little-endian `u64` stored at `pos` in `data`.
pub open spec fn spec_u64_at(data: Seq<u8>, pos: int) -> u64 {
    spec_u64_from_le_bytes(data.subrange(pos, pos + 8))
}

impl State {
    /// Creates a new state.
    pub fn new() -> (s: State) {
        State(PhantomData)
    }

    /// Reads type format and property.
    ///
    /// Returns `None` in first argument if there is no more data.
    pub fn read(r: &mut Source) -> (res: Result<(Option<State<Bytes>>, u16, u16), Error>)
        ensures
            final(r).data@ == old(r).data@,
            old(r).pos + 2 > old(r).data@.len() ==> {
                &&& res == Err::<(Option<State<Bytes>>, u16, u16), Error>(Error::IoFailure)
                &&& final(r).pos == old(r).pos
            },
            old(r).pos + 2 <= old(r).data@.len() && spec_u16_at(old(r).data@, old(r).pos as int)
                == 0 ==> {
                &&& res matches Ok(t) && t.0 is None && t.1 == 0 && t.2 == 0
                &&& final(r).pos == old(r).pos + 2
            },
            old(r).pos + 2 <= old(r).data@.len() && spec_u16_at(old(r).data@, old(r).pos as int)
                != 0 ==> {
                &&& old(r).pos + 4 <= old(r).data@.len() ==> {
                    &&& res matches Ok(t) && t.0 is Some && t.1 == spec_u16_at(
                        old(r).data@,
                        old(r).pos as int,
                    ) && t.2 == spec_u16_at(old(r).data@, old(r).pos + 2)
                    &&& final(r).pos == old(r).pos + 4
                }
                &&& old(r).pos + 4 > old(r).data@.len() ==> {
                    &&& res == Err::<(Option<State<Bytes>>, u16, u16), Error>(Error::IoFailure)
                    &&& final(r).pos == old(r).pos + 2
                }
            },
    {
        let mut ty: u16 = 0;
        let mut property_id: u16 = 0;
        let state = State::new().read_type_format(&mut ty, r)?;
        if ty == 0 {
            Ok((None, 0, 0))
        } else {
            Ok((Some(state.read_property_id(&mut property_id, r)?), ty, property_id))
        }
    }

    /// Writes type format.
    pub fn write_type_format(self, type_format: u16, w: &mut Vec<u8>) -> (res: Result<
        State<PropertyId>,
        Error,
    >)
        ensures
            res is Ok,
            final(w)@ == old(w)@ + spec_u16_to_le_bytes(type_format),
    {
        write_u16_le(type_format, w);
        Ok(State(PhantomData))
    }

    /// Reads type format.
    pub fn read_type_format(self, type_format: &mut u16, r: &mut Source) -> (res: Result<
        State<PropertyId>,
        Error,
    >)
        ensures
            final(r).data@ == old(r).data@,
            old(r).pos + 2 <= old(r).data@.len() ==> {
                &&& res is Ok
                &&& *final(type_format) == spec_u16_at(old(r).data@, old(r).pos as int)
                &&& final(r).pos == old(r).pos + 2
            },
            old(r).pos + 2 > old(r).data@.len() ==> {
                &&& res == Err::<State<PropertyId>, Error>(Error::IoFailure)
                &&& *final(type_format) == *old(type_format)
                &&& final(r).pos == old(r).pos
            },
    {
        *type_format = read_u16_le(r)?;
        Ok(State(PhantomData))
    }

    /// Ends writing state.
    pub fn end_type_formats(self, w: &mut Vec<u8>) -> (res: Result<(), Error>)
        ensures
            res is Ok,
            final(w)@ == old(w)@ + spec_u16_to_le_bytes(0),
    {
        write_u16_le(0, w);
        Ok(())
    }
}

impl State<PropertyId> {
    /// Writes property id.
    pub fn write_property_id(self, property_id: u16, w: &mut Vec<u8>) -> (res: Result<
        State<Bytes>,
        Error,
    >)
        ensures
            res is Ok,
            final(w)@ == old(w)@ + spec_u16_to_le_bytes(property_id),
    {
        write_u16_le(property_id, w);
        Ok(State(PhantomData))
    }

    /// Reads property id.
    pub fn read_property_id(self, property_id: &mut u16, r: &mut Source) -> (res: Result<
        State<Bytes>,
        Error,
    >)
        ensures
            final(r).data@ == old(r).data@,
            old(r).pos + 2 <= old(r).data@.len() ==> {
                &&& res is Ok
                &&& *final(property_id) == spec_u16_at(old(r).data@, old(r).pos as int)
                &&& final(r).pos == old(r).pos + 2
            },
            old(r).pos + 2 > old(r).data@.len() ==> {
                &&& res == Err::<State<Bytes>, Error>(Error::IoFailure)
                &&& *final(property_id) == *old(property_id)
                &&& final(r).pos == old(r).pos
            },
    {
        *property_id = read_u16_le(r)?;
        Ok(State(PhantomData))
    }
}

impl State<Bytes> {
    /// Writes number of bytes in data.
    pub fn write_bytes(self, bytes: u64, w: &mut Vec<u8>) -> (res: Result<
        State<OffsetInstanceId>,
        Error,
    >)
        ensures
            res is Ok,
            final(w)@ == old(w)@ + spec_u64_to_le_bytes(bytes),
    {
        write_u64_le(bytes, w);
        Ok(State(PhantomData))
    }

    /// Reads bytes.
    pub fn read_bytes(self, bytes: &mut u64, r: &mut Source) -> (res: Result<
        State<OffsetInstanceId>,
        Error,
    >)
        ensures
            final(r).data@ == old(r).data@,
            old(r).pos + 8 <= old(r).data@.len() ==> {
                &&& res is Ok
                &&& *final(bytes) == spec_u64_at(old(r).data@, old(r).pos as int)
                &&& final(r).pos == old(r).pos + 8
            },
            old(r).pos + 8 > old(r).data@.len() ==> {
                &&& res == Err::<State<OffsetInstanceId>, Error>(Error::IoFailure)
                &&& *final(bytes) == *old(bytes)
                &&& final(r).pos == old(r).pos
            },
    {
        *bytes = read_u64_le(r)?;
        Ok(State(PhantomData))
    }

    /// Ends byte block.
    pub fn end_bytes(self, w: &mut Vec<u8>) -> (res: Result<State<TypeFormat>, Error>)
        ensures
            res is Ok,
            final(w)@ == old(w)@ + spec_u64_to_le_bytes(0),
    {
        write_u64_le(0, w);
        Ok(State(PhantomData))
    }

    /// Checks if this is the end of bytes.
    ///
    /// Consumes the next byte count and fails with
    /// [`Error::MalformedFraming`] unless it is exactly zero.
    pub fn has_end_bytes(self, r: &mut Source) -> (res: Result<State<TypeFormat>, Error>)
        ensures
            final(r).data@ == old(r).data@,
            old(r).pos + 8 > old(r).data@.len() ==> {
                &&& res == Err::<State<TypeFormat>, Error>(Error::IoFailure)
                &&& final(r).pos == old(r).pos
            },
            old(r).pos + 8 <= old(r).data@.len() ==> {
                &&& final(r).pos == old(r).pos + 8
                &&& spec_u64_at(old(r).data@, old(r).pos as int) == 0 ==> res is Ok
                &&& spec_u64_at(old(r).data@, old(r).pos as int) != 0 ==> res == Err::<
                    State<TypeFormat>,
                    Error,
                >(Error::MalformedFraming)
            },
    {
        let val = read_u64_le(r)?;
        if val == 0 {
            Ok(State(PhantomData))
        } else {
            Err(Error::MalformedFraming)
        }
    }
}

impl State<OffsetInstanceId> {
    /// Writes offset instance id.
    pub fn write_offset_instance_id(self, offset_instance_id: u64, w: &mut Vec<u8>) -> (res: Result<
        State<Data>,
        Error,
    >)
        ensures
            res is Ok,
            final(w)@ == old(w)@ + spec_u64_to_le_bytes(offset_instance_id),
    {
        write_u64_le(offset_instance_id, w);
        Ok(State(PhantomData))
    }

    /// Reads offset instance id.
    pub fn read_offset_instance_id(self, offset_instance_id: &mut u64, r: &mut Source) -> (res:
        Result<State<Data>, Error>)
        ensures
            final(r).data@ == old(r).data@,
            old(r).pos + 8 <= old(r).data@.len() ==> {
                &&& res is Ok
                &&& *final(offset_instance_id) == spec_u64_at(old(r).data@, old(r).pos as int)
                &&& final(r).pos == old(r).pos + 8
            },
            old(r).pos + 8 > old(r).data@.len() ==> {
                &&& res == Err::<State<Data>, Error>(Error::IoFailure)
                &&& *final(offset_instance_id) == *old(offset_instance_id)
                &&& final(r).pos == old(r).pos
            },
    {
        *offset_instance_id = read_u64_le(r)?;
        Ok(State(PhantomData))
    }
}

impl State<Data> {
    /// Writes data.
    pub fn write_data(self, data: &[u8], w: &mut Vec<u8>) -> (res: Result<State<Data>, Error>)
        ensures
            res is Ok,
            final(w)@ == old(w)@ + data@,
    {
        let mut i: usize = 0;
        while i < data.len()
            invariant
                i <= data@.len(),
                w@ == old(w)@ + data@.subrange(0, i as int),
            decreases data@.len() - i,
        {
            w.push(data[i]);
            i = i + 1;
            proof {
                assert(data@.subrange(0, i as int) == data@.subrange(0, i - 1).push(
                    data@[i - 1],
                ));
            }
        }
        proof {
            assert(data@.subrange(0, data@.len() as int) == data@);
        }
        Ok(State(PhantomData))
    }

    /// End of data.
    pub fn end_data(self) -> (s: State<Bytes>) {
        State(PhantomData)
    }
}

} // verus!
