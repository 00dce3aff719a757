//! The codec layer: the `Array`, `Scalar`, `Vector` and `Matrix` traits,
//! which serialize whole arrays, single values and offset-addressed partial
//! updates on top of the state machine and the type encoding.

use crate::segment::spec_apply_segment;
use crate::segment::spec_parse_scalars;
use crate::segment::spec_prop_error;
use crate::segment::spec_prop_wf;
use crate::segment::spec_property_block;
use crate::segment::spec_scalar_payload;
use crate::segment::spec_seg_bytes;
use crate::segment::spec_seg_end;
use crate::segment::spec_seg_error;
use crate::segment::spec_seg_offset;
use crate::segment::spec_seg_payload;
use crate::segment::spec_seg_wf;
use crate::segment::lemma_elems_payload_len;
use crate::segment::lemma_elems_payload_push;
use crate::segment::spec_elems_payload;
use crate::segment::lemma_scalar_payload_len;
use crate::segment::lemma_scalar_payload_push;
use crate::state::Bytes;
use crate::state::State;
use crate::stream::read_u16_le;
use crate::stream::read_u32_le;
use crate::stream::read_u64_le;
use crate::stream::read_u8_le;
use crate::stream::write_u16_le;
use crate::stream::write_u32_le;
use crate::stream::write_u64_le;
use crate::stream::Error;
use crate::stream::Source;
use crate::types::Type;
use vstd::arithmetic::div_mod::lemma_fundamental_div_mod;
use vstd::arithmetic::div_mod::lemma_fundamental_div_mod_converse;
use vstd::bytes::lemma_auto_spec_u16_to_from_le_bytes;
use vstd::bytes::lemma_auto_spec_u32_to_from_le_bytes;
use vstd::bytes::lemma_auto_spec_u64_to_from_le_bytes;
use vstd::bytes::spec_u16_from_le_bytes;
use vstd::bytes::spec_u16_to_le_bytes;
use vstd::bytes::spec_u32_from_le_bytes;
use vstd::bytes::spec_u32_to_le_bytes;
use vstd::bytes::spec_u64_from_le_bytes;
use vstd::bytes::spec_u64_to_le_bytes;
use vstd::prelude::*;

verus! {

/// Implemented by growable array types used as read destinations.
pub trait Array {
    /// The type of item.
    type Item;

    /// The items held, in order.
    spec fn contents(&self) -> Seq<Self::Item>;

    /// Returns the number of items.
    fn len(&self) -> (n: usize)
        ensures
            n == self.contents().len(),
    ;

    /// Get value of item by index.
    fn get(&self, ind: usize) -> (item: &Self::Item)
        requires
            ind < self.contents().len(),
        ensures
            *item == self.contents()[ind as int],
    ;

    /// Set value of item at index.
    fn set(&mut self, ind: usize, val: Self::Item)
        requires
            ind < old(self).contents().len(),
        ensures
            final(self).contents() == old(self).contents().update(ind as int, val),
    ;

    /// Push new item at the end of array.
    fn push(&mut self, val: Self::Item)
        ensures
            final(self).contents() == old(self).contents().push(val),
    ;
}

impl<T> Array for Vec<T> {
    type Item = T;

    open spec fn contents(&self) -> Seq<T> {
        self@
    }

    fn len(&self) -> usize {
        Vec::len(self)
    }

    fn get(&self, ind: usize) -> &T {
        &self[ind]
    }

    fn set(&mut self, ind: usize, val: T) {
        self[ind] = val;
    }

    fn push(&mut self, val: T) {
        Vec::push(self, val)
    }
}

/// Implemented by scalar values: the ten primitive representations that can
/// be carried in a stream, each serialized to a fixed little-endian width.
pub trait Scalar: Sized + Copy {
    /// The primitive kind of this representation.
    spec fn spec_ty() -> Type;

    /// The little-endian bytes of one value.
    spec fn spec_to_bytes(self) -> Seq<u8>;

    /// The value stored in the given little-endian bytes.
    spec fn spec_from_bytes(b: Seq<u8>) -> Self;

    /// The zero value, used to fill grown destination slots.
    spec fn spec_default() -> Self;

    /// Law: one value serializes to exactly the kind's width.
    proof fn lemma_to_bytes_len(self)
        ensures
            self.spec_to_bytes().len() == Self::spec_ty().spec_size(),
    ;

    /// Law: deserializing a serialized value recovers the value.
    proof fn lemma_to_from_bytes(self)
        ensures
            Self::spec_from_bytes(self.spec_to_bytes()) == self,
    ;

    /// Law: any byte sequence of the kind's width is the serialization of
    /// the value it deserializes to.
    proof fn lemma_from_to_bytes(b: Seq<u8>)
        requires
            b.len() == Self::spec_ty().spec_size(),
        ensures
            Self::spec_from_bytes(b).spec_to_bytes() == b,
    ;

    /// Type of scalar.
    fn ty() -> (t: Type)
        ensures
            t == Self::spec_ty(),
    ;

    /// The zero value of this scalar.
    fn default_val() -> (v: Self)
        ensures
            v == Self::spec_default(),
    ;

    /// Write to binary.
    fn write(&self, w: &mut Vec<u8>) -> (res: Result<usize, Error>)
        ensures
            res == Ok::<usize, Error>(Self::spec_ty().spec_size() as usize),
            final(w)@ == old(w)@ + self.spec_to_bytes(),
    ;

    /// Read from binary.
    fn read(&mut self, r: &mut Source) -> (res: Result<usize, Error>)
        ensures
            final(r).data@ == old(r).data@,
            old(r).pos + Self::spec_ty().spec_size() <= old(r).data@.len() ==> {
                &&& res == Ok::<usize, Error>(Self::spec_ty().spec_size() as usize)
                &&& final(r).pos == old(r).pos + Self::spec_ty().spec_size()
                &&& *final(self) == Self::spec_from_bytes(
                    old(r).data@.subrange(
                        old(r).pos as int,
                        old(r).pos + Self::spec_ty().spec_size(),
                    ),
                )
            },
            old(r).pos + Self::spec_ty().spec_size() > old(r).data@.len() ==> {
                &&& res == Err::<usize, Error>(Error::IoFailure)
                &&& final(r).pos == old(r).pos
                &&& *final(self) == *old(self)
            },
    ;

}

impl Scalar for u8 {
    open spec fn spec_ty() -> Type {
        Type::U8
    }

    open spec fn spec_to_bytes(self) -> Seq<u8> {
        seq![self]
    }

    open spec fn spec_from_bytes(b: Seq<u8>) -> u8 {
        b[0]
    }

    open spec fn spec_default() -> u8 {
        0
    }

    proof fn lemma_to_bytes_len(self) {
    }

    proof fn lemma_to_from_bytes(self) {
    }

    proof fn lemma_from_to_bytes(b: Seq<u8>) {
        assert(<u8 as Scalar>::spec_from_bytes(b).spec_to_bytes() =~= b);
    }

    fn ty() -> Type {
        Type::U8
    }

    fn default_val() -> u8 {
        0
    }

    fn write(&self, w: &mut Vec<u8>) -> Result<usize, Error> {
        w.push(*self);
        proof {
            assert(w@ =~= old(w)@ + self.spec_to_bytes());
        }
        Ok(1)
    }

    fn read(&mut self, r: &mut Source) -> Result<usize, Error> {
        *self = read_u8_le(r)?;
        proof {
            assert(old(r).data@.subrange(old(r).pos as int, old(r).pos + 1)[0] == old(
                r,
            ).data@[old(r).pos as int]);
        }
        Ok(1)
    }
}

impl Scalar for u16 {
    open spec fn spec_ty() -> Type {
        Type::U16
    }

    open spec fn spec_to_bytes(self) -> Seq<u8> {
        spec_u16_to_le_bytes(self)
    }

    open spec fn spec_from_bytes(b: Seq<u8>) -> u16 {
        spec_u16_from_le_bytes(b)
    }

    open spec fn spec_default() -> u16 {
        0
    }

    proof fn lemma_to_bytes_len(self) {
        lemma_auto_spec_u16_to_from_le_bytes();
    }

    proof fn lemma_to_from_bytes(self) {
        lemma_auto_spec_u16_to_from_le_bytes();
        assert(spec_u16_to_le_bytes(self).len() == 2);
        assert(spec_u16_from_le_bytes(spec_u16_to_le_bytes(self)) == self);
    }

    proof fn lemma_from_to_bytes(b: Seq<u8>) {
        lemma_auto_spec_u16_to_from_le_bytes();
    }

    fn ty() -> Type {
        Type::U16
    }

    fn default_val() -> u16 {
        0
    }

    fn write(&self, w: &mut Vec<u8>) -> Result<usize, Error> {
        write_u16_le(*self, w);
        Ok(2)
    }

    fn read(&mut self, r: &mut Source) -> Result<usize, Error> {
        *self = read_u16_le(r)?;
        Ok(2)
    }
}

impl Scalar for u32 {
    open spec fn spec_ty() -> Type {
        Type::U32
    }

    open spec fn spec_to_bytes(self) -> Seq<u8> {
        spec_u32_to_le_bytes(self)
    }

    open spec fn spec_from_bytes(b: Seq<u8>) -> u32 {
        spec_u32_from_le_bytes(b)
    }

    open spec fn spec_default() -> u32 {
        0
    }

    proof fn lemma_to_bytes_len(self) {
        lemma_auto_spec_u32_to_from_le_bytes();
        assert(spec_u32_to_le_bytes(self).len() == 4);
    }

    proof fn lemma_to_from_bytes(self) {
        lemma_auto_spec_u32_to_from_le_bytes();
        assert(spec_u32_to_le_bytes(self).len() == 4);
    }

    proof fn lemma_from_to_bytes(b: Seq<u8>) {
        lemma_auto_spec_u32_to_from_le_bytes();
    }

    fn ty() -> Type {
        Type::U32
    }

    fn default_val() -> u32 {
        0
    }

    fn write(&self, w: &mut Vec<u8>) -> Result<usize, Error> {
        write_u32_le(*self, w);
        Ok(4)
    }

    fn read(&mut self, r: &mut Source) -> Result<usize, Error> {
        *self = read_u32_le(r)?;
        Ok(4)
    }
}

impl Scalar for u64 {
    open spec fn spec_ty() -> Type {
        Type::U64
    }

    open spec fn spec_to_bytes(self) -> Seq<u8> {
        spec_u64_to_le_bytes(self)
    }

    open spec fn spec_from_bytes(b: Seq<u8>) -> u64 {
        spec_u64_from_le_bytes(b)
    }

    open spec fn spec_default() -> u64 {
        0
    }

    proof fn lemma_to_bytes_len(self) {
        lemma_auto_spec_u64_to_from_le_bytes();
    }

    proof fn lemma_to_from_bytes(self) {
        lemma_auto_spec_u64_to_from_le_bytes();
    }

    proof fn lemma_from_to_bytes(b: Seq<u8>) {
        lemma_auto_spec_u64_to_from_le_bytes();
    }

    fn ty() -> Type {
        Type::U64
    }

    fn default_val() -> u64 {
        0
    }

    fn write(&self, w: &mut Vec<u8>) -> Result<usize, Error> {
        write_u64_le(*self, w);
        Ok(8)
    }

    fn read(&mut self, r: &mut Source) -> Result<usize, Error> {
        *self = read_u64_le(r)?;
        Ok(8)
    }
}

impl Scalar for i8 {
    open spec fn spec_ty() -> Type {
        Type::I8
    }

    open spec fn spec_to_bytes(self) -> Seq<u8> {
        seq![self as u8]
    }

    open spec fn spec_from_bytes(b: Seq<u8>) -> i8 {
        b[0] as i8
    }

    open spec fn spec_default() -> i8 {
        0
    }

    proof fn lemma_to_bytes_len(self) {
    }

    proof fn lemma_to_from_bytes(self) {
        assert(self as u8 as i8 == self) by (bit_vector);
    }

    proof fn lemma_from_to_bytes(b: Seq<u8>) {
        let x = b[0];
        assert(x as i8 as u8 == x) by (bit_vector);
        assert(<i8 as Scalar>::spec_from_bytes(b).spec_to_bytes() =~= b);
    }

    fn ty() -> Type {
        Type::I8
    }

    fn default_val() -> i8 {
        0
    }

    fn write(&self, w: &mut Vec<u8>) -> Result<usize, Error> {
        w.push(*self as u8);
        proof {
            assert(w@ =~= old(w)@ + self.spec_to_bytes());
        }
        Ok(1)
    }

    fn read(&mut self, r: &mut Source) -> Result<usize, Error> {
        let val = read_u8_le(r)?;
        *self = val as i8;
        proof {
            assert(old(r).data@.subrange(old(r).pos as int, old(r).pos + 1)[0] == old(
                r,
            ).data@[old(r).pos as int]);
        }
        Ok(1)
    }
}

impl Scalar for i16 {
    open spec fn spec_ty() -> Type {
        Type::I16
    }

    open spec fn spec_to_bytes(self) -> Seq<u8> {
        spec_u16_to_le_bytes(self as u16)
    }

    open spec fn spec_from_bytes(b: Seq<u8>) -> i16 {
        spec_u16_from_le_bytes(b) as i16
    }

    open spec fn spec_default() -> i16 {
        0
    }

    proof fn lemma_to_bytes_len(self) {
        lemma_auto_spec_u16_to_from_le_bytes();
        assert(spec_u16_to_le_bytes(self as u16).len() == 2);
    }

    proof fn lemma_to_from_bytes(self) {
        lemma_auto_spec_u16_to_from_le_bytes();
        assert(spec_u16_to_le_bytes(self as u16).len() == 2);
        assert(spec_u16_from_le_bytes(spec_u16_to_le_bytes(self as u16)) == self as u16);
        assert(self as u16 as i16 == self) by (bit_vector);
    }

    proof fn lemma_from_to_bytes(b: Seq<u8>) {
        lemma_auto_spec_u16_to_from_le_bytes();
        let x = spec_u16_from_le_bytes(b);
        assert(x as i16 as u16 == x) by (bit_vector);
        assert(spec_u16_to_le_bytes(spec_u16_from_le_bytes(b)) == b);
    }

    fn ty() -> Type {
        Type::I16
    }

    fn default_val() -> i16 {
        0
    }

    fn write(&self, w: &mut Vec<u8>) -> Result<usize, Error> {
        write_u16_le(*self as u16, w);
        Ok(2)
    }

    fn read(&mut self, r: &mut Source) -> Result<usize, Error> {
        let val = read_u16_le(r)?;
        *self = val as i16;
        Ok(2)
    }
}

impl Scalar for i32 {
    open spec fn spec_ty() -> Type {
        Type::I32
    }

    open spec fn spec_to_bytes(self) -> Seq<u8> {
        spec_u32_to_le_bytes(self as u32)
    }

    open spec fn spec_from_bytes(b: Seq<u8>) -> i32 {
        spec_u32_from_le_bytes(b) as i32
    }

    open spec fn spec_default() -> i32 {
        0
    }

    proof fn lemma_to_bytes_len(self) {
        lemma_auto_spec_u32_to_from_le_bytes();
        assert(spec_u32_to_le_bytes(self as u32).len() == 4);
    }

    proof fn lemma_to_from_bytes(self) {
        lemma_auto_spec_u32_to_from_le_bytes();
        assert(spec_u32_to_le_bytes(self as u32).len() == 4);
        assert(spec_u32_from_le_bytes(spec_u32_to_le_bytes(self as u32)) == self as u32);
        assert(self as u32 as i32 == self) by (bit_vector);
    }

    proof fn lemma_from_to_bytes(b: Seq<u8>) {
        lemma_auto_spec_u32_to_from_le_bytes();
        let x = spec_u32_from_le_bytes(b);
        assert(x as i32 as u32 == x) by (bit_vector);
        assert(spec_u32_to_le_bytes(spec_u32_from_le_bytes(b)) == b);
    }

    fn ty() -> Type {
        Type::I32
    }

    fn default_val() -> i32 {
        0
    }

    fn write(&self, w: &mut Vec<u8>) -> Result<usize, Error> {
        write_u32_le(*self as u32, w);
        Ok(4)
    }

    fn read(&mut self, r: &mut Source) -> Result<usize, Error> {
        let val = read_u32_le(r)?;
        *self = val as i32;
        Ok(4)
    }
}

impl Scalar for i64 {
    open spec fn spec_ty() -> Type {
        Type::I64
    }

    open spec fn spec_to_bytes(self) -> Seq<u8> {
        spec_u64_to_le_bytes(self as u64)
    }

    open spec fn spec_from_bytes(b: Seq<u8>) -> i64 {
        spec_u64_from_le_bytes(b) as i64
    }

    open spec fn spec_default() -> i64 {
        0
    }

    proof fn lemma_to_bytes_len(self) {
        lemma_auto_spec_u64_to_from_le_bytes();
    }

    proof fn lemma_to_from_bytes(self) {
        lemma_auto_spec_u64_to_from_le_bytes();
        assert(spec_u64_from_le_bytes(spec_u64_to_le_bytes(self as u64)) == self as u64);
        assert(self as u64 as i64 == self) by (bit_vector);
    }

    proof fn lemma_from_to_bytes(b: Seq<u8>) {
        lemma_auto_spec_u64_to_from_le_bytes();
        let x = spec_u64_from_le_bytes(b);
        assert(x as i64 as u64 == x) by (bit_vector);
        assert(spec_u64_to_le_bytes(spec_u64_from_le_bytes(b)) == b);
    }

    fn ty() -> Type {
        Type::I64
    }

    fn default_val() -> i64 {
        0
    }

    fn write(&self, w: &mut Vec<u8>) -> Result<usize, Error> {
        write_u64_le(*self as u64, w);
        Ok(8)
    }

    fn read(&mut self, r: &mut Source) -> Result<usize, Error> {
        let val = read_u64_le(r)?;
        *self = val as i64;
        Ok(8)
    }
}

/// The IEEE bit pattern of a 32 bit float. Values of kind [`Type::F32`]
/// travel through the codec as their raw bits, which preserves exact round
/// trips, NaN payloads and signed zero; conversion to and from `f32` is the
/// caller's concern.
#[derive(Copy, Clone, PartialEq, Eq, Structural, Debug)]
pub struct F32Bits(pub u32);

/// The IEEE bit pattern of a 64 bit float. Values of kind [`Type::F64`]
/// travel through the codec as their raw bits, which preserves exact round
/// trips, NaN payloads and signed zero; conversion to and from `f64` is the
/// caller's concern.
#[derive(Copy, Clone, PartialEq, Eq, Structural, Debug)]
pub struct F64Bits(pub u64);

impl Scalar for F32Bits {
    open spec fn spec_ty() -> Type {
        Type::F32
    }

    open spec fn spec_to_bytes(self) -> Seq<u8> {
        spec_u32_to_le_bytes(self.0)
    }

    open spec fn spec_from_bytes(b: Seq<u8>) -> F32Bits {
        F32Bits(spec_u32_from_le_bytes(b))
    }

    open spec fn spec_default() -> F32Bits {
        F32Bits(0)
    }

    proof fn lemma_to_bytes_len(self) {
        lemma_auto_spec_u32_to_from_le_bytes();
        assert(spec_u32_to_le_bytes(self.0).len() == 4);
    }

    proof fn lemma_to_from_bytes(self) {
        lemma_auto_spec_u32_to_from_le_bytes();
        assert(spec_u32_to_le_bytes(self.0).len() == 4);
    }

    proof fn lemma_from_to_bytes(b: Seq<u8>) {
        lemma_auto_spec_u32_to_from_le_bytes();
    }

    fn ty() -> Type {
        Type::F32
    }

    fn default_val() -> F32Bits {
        F32Bits(0)
    }

    fn write(&self, w: &mut Vec<u8>) -> Result<usize, Error> {
        write_u32_le(self.0, w);
        Ok(4)
    }

    fn read(&mut self, r: &mut Source) -> Result<usize, Error> {
        let val = read_u32_le(r)?;
        *self = F32Bits(val);
        Ok(4)
    }
}

impl Scalar for F64Bits {
    open spec fn spec_ty() -> Type {
        Type::F64
    }

    open spec fn spec_to_bytes(self) -> Seq<u8> {
        spec_u64_to_le_bytes(self.0)
    }

    open spec fn spec_from_bytes(b: Seq<u8>) -> F64Bits {
        F64Bits(spec_u64_from_le_bytes(b))
    }

    open spec fn spec_default() -> F64Bits {
        F64Bits(0)
    }

    proof fn lemma_to_bytes_len(self) {
        lemma_auto_spec_u64_to_from_le_bytes();
    }

    proof fn lemma_to_from_bytes(self) {
        lemma_auto_spec_u64_to_from_le_bytes();
    }

    proof fn lemma_from_to_bytes(b: Seq<u8>) {
        lemma_auto_spec_u64_to_from_le_bytes();
    }

    fn ty() -> Type {
        Type::F64
    }

    fn default_val() -> F64Bits {
        F64Bits(0)
    }

    fn write(&self, w: &mut Vec<u8>) -> Result<usize, Error> {
        write_u64_le(self.0, w);
        Ok(8)
    }

    fn read(&mut self, r: &mut Source) -> Result<usize, Error> {
        let val = read_u64_le(r)?;
        *self = F64Bits(val);
        Ok(8)
    }
}

/// Writes property.
pub fn write_scalar_property<T: Scalar>(value: &T, property_id: u16, w: &mut Vec<u8>) -> (res: Result<(), Error>)
    ensures
        res is Ok,
        final(w)@ == old(w)@ + spec_property_block(
            T::spec_ty().spec_matrix_code(1, 1),
            property_id,
            value.spec_to_bytes(),
        ),
{
    let (ty, s) = T::ty().scalar();
    let state = State::new().write_type_format(ty, w)?.write_property_id(
        property_id,
        w,
    )?.write_bytes(s, w)?.write_offset_instance_id(0, w)?;
    value.write(w)?;
    let state = state.end_data();
    state.end_bytes(w)?;
    proof {
        value.lemma_to_bytes_len();
        assert(w@ =~= old(w)@ + spec_property_block(
            T::spec_ty().spec_matrix_code(1, 1),
            property_id,
            value.spec_to_bytes(),
        ));
    }
    Ok(())
}

/// Writes array.
pub fn write_scalar_array<T: Scalar, A: Array<Item = T>>(property_id: u16, arr: &A, w: &mut Vec<u8>) -> (res:
    Result<(), Error>)
    requires
        arr.contents().len() * T::spec_ty().spec_size() <= u64::MAX,
    ensures
        res is Ok,
        final(w)@ == old(w)@ + spec_property_block(
            T::spec_ty().spec_matrix_code(1, 1),
            property_id,
            spec_scalar_payload(arr.contents()),
        ),
{
    let n = arr.len();
    let (ty, s) = T::ty().scalar();
    proof {
        assert((s as int) * (n as int) == (n as int) * (s as int)) by (nonlinear_arith);
    }
    let state = State::new().write_type_format(ty, w)?.write_property_id(
        property_id,
        w,
    )?.write_bytes(s * n as u64, w)?.write_offset_instance_id(0, w)?;
    let ghost prefix = w@;
    let mut k: usize = 0;
    while k < n
        invariant
            k <= n,
            n == arr.contents().len(),
            w@ == prefix + spec_scalar_payload(arr.contents().take(k as int)),
        decreases n - k,
    {
        arr.get(k).write(w)?;
        proof {
            assert(arr.contents().take(k as int).push(arr.contents()[k as int])
                =~= arr.contents().take(k as int + 1));
            lemma_scalar_payload_push::<T>(
                arr.contents().take(k as int),
                arr.contents()[k as int],
            );
            assert(w@ =~= prefix + spec_scalar_payload(arr.contents().take(k as int + 1)));
        }
        k = k + 1;
    }
    proof {
        assert(arr.contents().take(n as int) =~= arr.contents());
    }
    state.end_data().end_bytes(w)?;
    proof {
        lemma_scalar_payload_len::<T>(arr.contents());
        assert(w@ =~= old(w)@ + spec_property_block(
            T::spec_ty().spec_matrix_code(1, 1),
            property_id,
            spec_scalar_payload(arr.contents()),
        ));
    }
    Ok(())
}

/// Reads property.
///
/// The block's type format and property id have already been consumed;
/// this call consumes one single-value segment and the zero byte count
/// that ends the block.
#[verifier::rlimit(60)]
pub fn read_scalar_property<T: Scalar>(value: &mut T, state: State<Bytes>, ty: u16, r: &mut Source) -> (res: Result<
    (),
    Error,
>)
    ensures
        final(r).data@ == old(r).data@,
        ({
            let d = old(r).data@;
            let p = old(r).pos as int;
            let esz = T::spec_ty().spec_size() as int;
            let shape_ok = Type::spec_info(ty) == Some((T::spec_ty(), 1u8, 1u8));
            &&& (res is Ok <==> shape_ok && spec_prop_wf(d, p, esz))
            &&& res is Ok ==> {
                &&& final(r).pos == spec_seg_end(d, p)
                &&& *final(value) == T::spec_from_bytes(d.subrange(p + 16, p + 16 + esz))
            }
            &&& res is Err ==> res == Err::<(), Error>(spec_prop_error(d, p, esz, shape_ok))
        }),
{
    let self_ty = T::ty();
    let shape_ok: bool = match Type::info(ty) {
        Some((t, rows, cols)) => t == self_ty && rows == 1 && cols == 1,
        None => false,
    };
    if !shape_ok {
        return Err(Error::ShapeMismatch);
    }
    let mut bytes: u64 = 0;
    let state = state.read_bytes(&mut bytes, r)?;
    let (_, scalar_bytes) = self_ty.scalar();
    if bytes != scalar_bytes {
        return Err(Error::MalformedFraming);
    }
    let mut offset: u64 = 0;
    let state = state.read_offset_instance_id(&mut offset, r)?;
    if offset != 0 {
        return Err(Error::MalformedFraming);
    }
    let rem = r.remaining();
    if (rem as u64) < 8 || (rem as u64) - 8 < bytes {
        return Err(Error::IoFailure);
    }
    value.read(r)?;
    state.end_data().has_end_bytes(r)?;
    Ok(())
}

/// Reads array.
///
/// The block's type format and property id have already been consumed;
/// this call consumes one segment, places its elements into `arr`
/// starting at the segment's offset instance id — growing `arr` with
/// zero values where needed and leaving other slots untouched — and
/// then consumes the zero byte count that ends the block.
#[verifier::rlimit(60)]
pub fn read_scalar_array<T: Scalar, A: Array<Item = T>>(
    state: State<Bytes>,
    ty: u16,
    arr: &mut A,
    r: &mut Source,
) -> (res: Result<(), Error>)
    ensures
        final(r).data@ == old(r).data@,
        ({
            let d = old(r).data@;
            let p = old(r).pos as int;
            let esz = T::spec_ty().spec_size() as int;
            let shape_ok = Type::spec_info(ty) == Some((T::spec_ty(), 1u8, 1u8));
            &&& (res is Ok <==> shape_ok && spec_seg_wf(d, p, esz))
            &&& res is Ok ==> {
                &&& final(r).pos == spec_seg_end(d, p)
                &&& final(arr).contents() == spec_apply_segment(
                    old(arr).contents(),
                    T::spec_default(),
                    spec_seg_offset(d, p) as int,
                    spec_parse_scalars::<T>(
                        spec_seg_payload(d, p),
                        spec_seg_bytes(d, p) as int / esz,
                    ),
                )
            }
            &&& res is Err ==> res == Err::<(), Error>(spec_seg_error(d, p, esz, shape_ok))
        }),
{
    let ghost d = old(r).data@;
    let ghost p = old(r).pos as int;
    let ghost a0 = old(arr).contents();
    let self_ty = T::ty();
    let shape_ok: bool = match Type::info(ty) {
        Some((t, rows, cols)) => t == self_ty && rows == 1 && cols == 1,
        None => false,
    };
    if !shape_ok {
        return Err(Error::ShapeMismatch);
    }
    let mut bytes: u64 = 0;
    let state = state.read_bytes(&mut bytes, r)?;
    let (_, scalar_bytes) = self_ty.scalar();
    if bytes % scalar_bytes != 0 {
        return Err(Error::MalformedFraming);
    }
    let n = bytes / scalar_bytes;
    proof {
        lemma_fundamental_div_mod(bytes as int, scalar_bytes as int);
    }
    let mut offset: u64 = 0;
    let state = state.read_offset_instance_id(&mut offset, r)?;
    if n > u64::MAX - offset {
        return Err(Error::IndexOverflow);
    }
    let end = offset + n;
    if end > usize::MAX as u64 {
        return Err(Error::IndexOverflow);
    }
    let rem = r.remaining();
    if (rem as u64) < 8 || (rem as u64) - 8 < bytes {
        return Err(Error::IoFailure);
    }
    let ghost esz = T::spec_ty().spec_size() as int;
    let ghost elems = spec_parse_scalars::<T>(
        spec_seg_payload(d, p),
        spec_seg_bytes(d, p) as int / esz,
    );
    if n > 0 {
        let end_us = end as usize;
        let off_us = offset as usize;
        let n_us = n as usize;
        let ghost grown_len = if a0.len() > end as int {
            a0.len() as int
        } else {
            end as int
        };
        while arr.len() < end_us
            invariant
                a0 == old(arr).contents(),
                a0.len() <= arr.contents().len() <= grown_len,
                grown_len == if a0.len() > end as int {
                    a0.len() as int
                } else {
                    end as int
                },
                end_us == end,
                forall|i: int| 0 <= i < a0.len() ==> arr.contents()[i] == a0[i],
                forall|i: int|
                    a0.len() <= i < arr.contents().len() ==> arr.contents()[i]
                        == T::spec_default(),
            decreases end_us - arr.contents().len(),
        {
            arr.push(T::default_val());
        }
        let ghost p16 = p + 16;
        let mut k: usize = 0;
        while k < n_us
            invariant
                a0 == old(arr).contents(),
                k <= n_us,
                n_us == n,
                end == offset + n,
                end_us == end,
                off_us == offset,
                end <= usize::MAX,
                esz == T::spec_ty().spec_size() as int,
                1 <= esz <= 8,
                bytes == n * esz,
                p16 == p + 16,
                arr.contents().len() == grown_len,
                grown_len == if a0.len() > end as int {
                    a0.len() as int
                } else {
                    end as int
                },
                r.data@ == d,
                0 <= p,
                p16 + bytes + 8 <= d.len(),
                r.pos == p16 + k * esz,
                forall|i: int|
                    0 <= i < a0.len() && !(offset <= i < offset + k) ==> arr.contents()[i]
                        == a0[i],
                forall|i: int|
                    a0.len() <= i < arr.contents().len() && !(offset <= i < offset + k)
                        ==> arr.contents()[i] == T::spec_default(),
                forall|j: int|
                    0 <= j < k ==> #[trigger] arr.contents()[offset + j] == T::spec_from_bytes(
                        d.subrange(p16 + j * esz, p16 + (j + 1) * esz),
                    ),
            decreases n_us - k,
        {
            proof {
                assert((k + 1) * esz == k * esz + esz && (k + 1) * esz <= n * esz)
                    by (nonlinear_arith)
                    requires
                        0 <= k < n,
                        esz >= 1,
                ;
            }
            let mut scalar = T::default_val();
            scalar.read(r)?;
            arr.set(off_us + k, scalar);
            k = k + 1;
        }
        proof {
            assert(k * esz == bytes) by (nonlinear_arith)
                requires
                    k == n,
                    bytes == n * esz,
            ;
        }
    }
    proof {
        if n == 0 {
            assert(bytes == 0) by (nonlinear_arith)
                requires
                    bytes == n * esz,
                    n == 0,
            ;
        }
        assert(r.pos == p + 16 + bytes);
    }
    let state = state.end_data();
    match state.has_end_bytes(r) {
        Ok(_) => {},
        Err(e) => {
            proof {
                assert(!spec_seg_wf(d, p, esz));
                assert(e == spec_seg_error(d, p, esz, true));
            }
            return Err(e);
        },
    }
    proof {
        assert forall|j: int| 0 <= j < n implies elems[j] == T::spec_from_bytes(
            d.subrange(p + 16 + j * esz, p + 16 + (j + 1) * esz),
        ) by {
            assert(0 <= j * esz && (j + 1) * esz == j * esz + esz && (j + 1) * esz <= n * esz)
                by (nonlinear_arith)
                requires
                    0 <= j < n,
                    esz >= 1,
            ;
            assert(spec_seg_payload(d, p).subrange(j * esz, (j + 1) * esz) =~= d.subrange(
                p + 16 + j * esz,
                p + 16 + (j + 1) * esz,
            ));
        }
        assert forall|i: int| offset <= i < offset + n implies arr.contents()[i] == elems[i
            - offset] by {
            let j = i - offset as int;
            assert(arr.contents()[offset + j] == T::spec_from_bytes(
                d.subrange(p + 16 + j * esz, p + 16 + (j + 1) * esz),
            ));
        }
        assert(arr.contents() =~= spec_apply_segment(
            a0,
            T::spec_default(),
            offset as int,
            elems,
        ));
    }
    Ok(())
}



/// Implemented by vector types: fixed-dimension runs of scalars.
pub trait Vector: Sized {
    /// Scalar type.
    type Scalar: Scalar;

    /// Whether this value holds exactly the fixed number of components.
    spec fn wf(&self) -> bool;

    /// The components, in index order.
    spec fn components(&self) -> Seq<Self::Scalar>;

    /// The fixed dimension.
    spec fn spec_dim() -> int;

    /// Law: a well-formed value holds exactly the fixed dimension.
    proof fn lemma_wf_len(&self)
        requires
            self.wf(),
        ensures
            self.components().len() == Self::spec_dim(),
    ;

    /// Returns the number of dimensions.
    fn dim() -> (d: usize)
        ensures
            d == Self::spec_dim(),
    ;

    /// Gets value.
    fn get(&self, ind: usize) -> (v: &Self::Scalar)
        requires
            self.wf(),
            ind < Self::spec_dim(),
        ensures
            *v == self.components()[ind as int],
    ;

    /// Sets value.
    fn set(&mut self, ind: usize, val: Self::Scalar)
        requires
            old(self).wf(),
            ind < Self::spec_dim(),
        ensures
            final(self).wf(),
            final(self).components() == old(self).components().update(ind as int, val),
    ;

    /// The zero-filled value, used to fill grown destination slots.
    fn default_val() -> (v: Self)
        ensures
            v.wf(),
            v.components() == Seq::new(
                Self::spec_dim() as nat,
                |q: int| <Self::Scalar as Scalar>::spec_default(),
            ),
    ;
}

/// A vector of a fixed dimension `N`, the library's carrier for vector
/// elements. The dimension is checked at construction.
#[derive(Clone, Debug, PartialEq, Eq)]
pub struct FixedVector<T, const N: usize> {
    components: Vec<T>,
}

impl<T, const N: usize> FixedVector<T, N> {
    /// Wraps `components` as a vector of dimension `N`; `None` unless it
    /// holds exactly `N` values.
    pub fn new(components: Vec<T>) -> (res: Option<FixedVector<T, N>>)
        ensures
            res is Some <==> components@.len() == N,
            res matches Some(v) ==> v.wf() && v.components() == components@,
    {
        if components.len() == N {
            Some(FixedVector { components })
        } else {
            None
        }
    }

    /// Unwraps the components.
    pub fn into_vec(self) -> (v: Vec<T>)
        ensures
            v@ == self.components(),
    {
        self.components
    }
}

impl<T, const N: usize> FixedVector<T, N> {
    /// Whether this value holds exactly `N` components.
    pub closed spec fn wf(&self) -> bool {
        self.components@.len() == N
    }

    /// The components, in index order.
    pub closed spec fn components(&self) -> Seq<T> {
        self.components@
    }
}

impl<T: Scalar, const N: usize> Vector for FixedVector<T, N> {
    type Scalar = T;

    open spec fn wf(&self) -> bool {
        FixedVector::wf(self)
    }

    open spec fn components(&self) -> Seq<T> {
        FixedVector::components(self)
    }

    open spec fn spec_dim() -> int {
        N as int
    }

    proof fn lemma_wf_len(&self) {
    }

    fn dim() -> usize {
        N
    }

    fn get(&self, ind: usize) -> &T {
        &self.components[ind]
    }

    fn set(&mut self, ind: usize, val: T) {
        self.components[ind] = val;
    }

    fn default_val() -> FixedVector<T, N> {
        let mut components: Vec<T> = Vec::new();
        while components.len() < N
            invariant
                components@.len() <= N,
                forall|q: int| 0 <= q < components@.len() ==> components@[q] == T::spec_default(),
            decreases N - components@.len(),
        {
            components.push(T::default_val());
        }
        let v = FixedVector { components };
        proof {
            assert(Vector::components(&v) =~= Seq::new(
                N as nat,
                |q: int| T::spec_default(),
            ));
        }
        v
    }
}


/// The components of a freshly grown vector or matrix slot: every
/// component is the scalar zero.
pub open spec fn spec_default_components<V: Vector>() -> Seq<V::Scalar> {
    Seq::new(V::spec_dim() as nat, |q: int| <V::Scalar as Scalar>::spec_default())
}

/// Writes the component bytes of one vector.
fn write_vector_elem<V: Vector>(v: &V, w: &mut Vec<u8>) -> (res: Result<(), Error>)
    requires
        v.wf(),
    ensures
        res is Ok,
        final(w)@ == old(w)@ + spec_scalar_payload(v.components()),
{
    proof {
        v.lemma_wf_len();
    }
    let dim = V::dim();
    let mut i: usize = 0;
    while i < dim
        invariant
            v.wf(),
            i <= dim,
            dim == V::spec_dim(),
            v.components().len() == V::spec_dim(),
            w@ == old(w)@ + spec_scalar_payload(v.components().take(i as int)),
        decreases dim - i,
    {
        v.get(i).write(w)?;
        proof {
            assert(v.components().take(i as int).push(v.components()[i as int])
                =~= v.components().take(i as int + 1));
            lemma_scalar_payload_push::<V::Scalar>(
                v.components().take(i as int),
                v.components()[i as int],
            );
            assert(w@ =~= old(w)@ + spec_scalar_payload(v.components().take(i as int + 1)));
        }
        i = i + 1;
    }
    proof {
        assert(v.components().take(dim as int) =~= v.components());
    }
    Ok(())
}

/// Reads the component bytes of one vector.
fn read_vector_elem<V: Vector>(r: &mut Source) -> (res: Result<V, Error>)
    requires
        1 <= V::spec_dim(),
        old(r).pos + V::spec_dim() * <V::Scalar as Scalar>::spec_ty().spec_size() <= old(
            r,
        ).data@.len(),
    ensures
        final(r).data@ == old(r).data@,
        final(r).pos == old(r).pos + V::spec_dim() * <V::Scalar as Scalar>::spec_ty().spec_size(),
        res matches Ok(v) && v.wf() && v.components() == spec_parse_scalars::<V::Scalar>(
            old(r).data@.subrange(
                old(r).pos as int,
                old(r).pos + V::spec_dim() * <V::Scalar as Scalar>::spec_ty().spec_size(),
            ),
            V::spec_dim(),
        ),
{
    let ghost d = old(r).data@;
    let ghost p = old(r).pos as int;
    let ghost ssz = <V::Scalar as Scalar>::spec_ty().spec_size() as int;
    proof {
        assert(1 <= ssz <= 8);
    }
    let dim = V::dim();
    let mut out = V::default_val();
    proof {
        out.lemma_wf_len();
    }
    let mut i: usize = 0;
    while i < dim
        invariant
            i <= dim,
            dim == V::spec_dim(),
            out.wf(),
            out.components().len() == V::spec_dim(),
            ssz == <V::Scalar as Scalar>::spec_ty().spec_size() as int,
            1 <= ssz <= 8,
            r.data@ == d,
            0 <= p,
            p + dim * ssz <= d.len(),
            r.pos == p + i * ssz,
            forall|q: int|
                0 <= q < i ==> out.components()[q] == <V::Scalar as Scalar>::spec_from_bytes(
                    d.subrange(p + q * ssz, p + (q + 1) * ssz),
                ),
        decreases dim - i,
    {
        proof {
            assert((i + 1) * ssz == i * ssz + ssz && 0 <= i * ssz && (i + 1) * ssz <= dim * ssz)
                by (nonlinear_arith)
                requires
                    0 <= i < dim,
                    ssz >= 1,
            ;
        }
        let mut sc = <V::Scalar as Scalar>::default_val();
        sc.read(r)?;
        out.set(i, sc);
        proof {
            out.lemma_wf_len();
        }
        i = i + 1;
    }
    proof {
        let parsed = spec_parse_scalars::<V::Scalar>(d.subrange(p, p + dim * ssz), dim as int);
        assert forall|q: int| 0 <= q < dim implies parsed[q] == out.components()[q] by {
            assert((q + 1) * ssz == q * ssz + ssz && 0 <= q * ssz && (q + 1) * ssz <= dim * ssz)
                by (nonlinear_arith)
                requires
                    0 <= q < dim,
                    ssz >= 1,
            ;
            assert(d.subrange(p, p + dim * ssz).subrange(q * ssz, (q + 1) * ssz) =~= d.subrange(
                p + q * ssz,
                p + (q + 1) * ssz,
            ));
        }
        assert(out.components() =~= parsed);
    }
    Ok(out)
}


/// Writes one vector as a whole block under `property_id`: a single
/// segment at offset zero holding the vector's components.
pub fn write_vector_property<V: Vector>(value: &V, property_id: u16, w: &mut Vec<u8>) -> (res:
    Result<(), Error>)
    requires
        value.wf(),
        1 <= V::spec_dim() <= 80,
    ensures
        res is Ok,
        final(w)@ == old(w)@ + spec_property_block(
            <V::Scalar as Scalar>::spec_ty().spec_matrix_code(1, V::spec_dim() as u8),
            property_id,
            spec_scalar_payload(value.components()),
        ),
{
    let dim = V::dim();
    let (code, s) = <V::Scalar as Scalar>::ty().vector(dim as u8).unwrap();
    let state = State::new().write_type_format(code, w)?.write_property_id(
        property_id,
        w,
    )?.write_bytes(s, w)?.write_offset_instance_id(0, w)?;
    write_vector_elem(value, w)?;
    state.end_data().end_bytes(w)?;
    proof {
        value.lemma_wf_len();
        lemma_scalar_payload_len::<V::Scalar>(value.components());
        let ssz = <V::Scalar as Scalar>::spec_ty().spec_size() as int;
        assert(dim * ssz == ssz * dim) by (nonlinear_arith);
        assert(w@ =~= old(w)@ + spec_property_block(
            <V::Scalar as Scalar>::spec_ty().spec_matrix_code(1, V::spec_dim() as u8),
            property_id,
            spec_scalar_payload(value.components()),
        ));
    }
    Ok(())
}

/// Writes an array of vectors as a whole block under `property_id`: a
/// single segment at offset zero holding every element's components in
/// array order.
pub fn write_vector_array<V: Vector, A: Array<Item = V>>(
    property_id: u16,
    arr: &A,
    w: &mut Vec<u8>,
) -> (res: Result<(), Error>)
    requires
        1 <= V::spec_dim() <= 80,
        forall|i: int| 0 <= i < arr.contents().len() ==> (#[trigger] arr.contents()[i]).wf(),
        arr.contents().len() * (V::spec_dim() * <V::Scalar as Scalar>::spec_ty().spec_size())
            <= u64::MAX,
    ensures
        res is Ok,
        final(w)@ == old(w)@ + spec_property_block(
            <V::Scalar as Scalar>::spec_ty().spec_matrix_code(1, V::spec_dim() as u8),
            property_id,
            spec_elems_payload(arr.contents().map_values(|v: V| v.components())),
        ),
{
    let n = arr.len();
    let dim = V::dim();
    let (code, s) = <V::Scalar as Scalar>::ty().vector(dim as u8).unwrap();
    proof {
        let ssz = <V::Scalar as Scalar>::spec_ty().spec_size() as int;
        assert((s as int) * (n as int) == (n as int) * ((dim as int) * ssz)) by (nonlinear_arith)
            requires
                s == ssz * dim,
        ;
    }
    let state = State::new().write_type_format(code, w)?.write_property_id(
        property_id,
        w,
    )?.write_bytes(s * n as u64, w)?.write_offset_instance_id(0, w)?;
    let ghost prefix = w@;
    let ghost cmap = arr.contents().map_values(|v: V| v.components());
    let mut k: usize = 0;
    while k < n
        invariant
            k <= n,
            n == arr.contents().len(),
            cmap == arr.contents().map_values(|v: V| v.components()),
            forall|i: int| 0 <= i < arr.contents().len() ==> (#[trigger] arr.contents()[i]).wf(),
            w@ == prefix + spec_elems_payload(cmap.take(k as int)),
        decreases n - k,
    {
        write_vector_elem(arr.get(k), w)?;
        proof {
            assert(cmap.take(k as int).push(arr.contents()[k as int].components()) =~= cmap.take(
                k as int + 1,
            ));
            lemma_elems_payload_push::<V::Scalar>(
                cmap.take(k as int),
                arr.contents()[k as int].components(),
            );
            assert(w@ =~= prefix + spec_elems_payload(cmap.take(k as int + 1)));
        }
        k = k + 1;
    }
    state.end_data().end_bytes(w)?;
    proof {
        assert(cmap.take(n as int) =~= cmap);
        assert forall|q: int| 0 <= q < cmap.len() implies (#[trigger] cmap[q]).len()
            == V::spec_dim() by {
            arr.contents()[q].lemma_wf_len();
        }
        lemma_elems_payload_len::<V::Scalar>(cmap, V::spec_dim());
        assert(w@ =~= old(w)@ + spec_property_block(
            <V::Scalar as Scalar>::spec_ty().spec_matrix_code(1, V::spec_dim() as u8),
            property_id,
            spec_elems_payload(cmap),
        ));
    }
    Ok(())
}

/// Reads one vector from a block whose type format and property id have
/// already been consumed: one single-value segment, then the zero byte
/// count that ends the block.
#[verifier::rlimit(60)]
pub fn read_vector_property<V: Vector>(
    value: &mut V,
    state: State<Bytes>,
    ty: u16,
    r: &mut Source,
) -> (res: Result<(), Error>)
    requires
        1 <= V::spec_dim() <= 80,
    ensures
        final(r).data@ == old(r).data@,
        ({
            let d = old(r).data@;
            let p = old(r).pos as int;
            let esz = V::spec_dim() * <V::Scalar as Scalar>::spec_ty().spec_size();
            let shape_ok = Type::spec_info(ty) == Some(
                (<V::Scalar as Scalar>::spec_ty(), 1u8, V::spec_dim() as u8),
            );
            &&& (res is Ok <==> shape_ok && spec_prop_wf(d, p, esz))
            &&& res is Ok ==> {
                &&& final(r).pos == spec_seg_end(d, p)
                &&& final(value).wf()
                &&& final(value).components() == spec_parse_scalars::<V::Scalar>(
                    d.subrange(p + 16, p + 16 + esz),
                    V::spec_dim(),
                )
            }
            &&& res is Err ==> res == Err::<(), Error>(spec_prop_error(d, p, esz, shape_ok))
        }),
{
    let ghost d = old(r).data@;
    let ghost p = old(r).pos as int;
    let dim = V::dim();
    let self_ty = <V::Scalar as Scalar>::ty();
    let shape_ok: bool = match Type::info(ty) {
        Some((t, rows, cols)) => t == self_ty && rows == 1 && cols == dim as u8,
        None => false,
    };
    if !shape_ok {
        return Err(Error::ShapeMismatch);
    }
    let mut bytes: u64 = 0;
    let state = state.read_bytes(&mut bytes, r)?;
    let (_, elem_bytes) = self_ty.vector(dim as u8).unwrap();
    proof {
        let ssz = <V::Scalar as Scalar>::spec_ty().spec_size() as int;
        assert(ssz * dim == dim * ssz) by (nonlinear_arith);
    }
    if bytes != elem_bytes {
        return Err(Error::MalformedFraming);
    }
    let mut offset: u64 = 0;
    let state = state.read_offset_instance_id(&mut offset, r)?;
    if offset != 0 {
        return Err(Error::MalformedFraming);
    }
    let rem = r.remaining();
    if (rem as u64) < 8 || (rem as u64) - 8 < bytes {
        return Err(Error::IoFailure);
    }
    *value = read_vector_elem::<V>(r)?;
    state.end_data().has_end_bytes(r)?;
    Ok(())
}

/// Reads an array of vectors from a block whose type format and property
/// id have already been consumed: one segment, placed into `arr` starting
/// at the segment's offset instance id — growing `arr` with zero-filled
/// vectors where needed and leaving other slots untouched — and then the
/// zero byte count that ends the block.
#[verifier::rlimit(60)]
pub fn read_vector_array<V: Vector, A: Array<Item = V>>(
    state: State<Bytes>,
    ty: u16,
    arr: &mut A,
    r: &mut Source,
) -> (res: Result<(), Error>)
    requires
        1 <= V::spec_dim() <= 80,
    ensures
        final(r).data@ == old(r).data@,
        ({
            let d = old(r).data@;
            let p = old(r).pos as int;
            let esz = V::spec_dim() * <V::Scalar as Scalar>::spec_ty().spec_size();
            let shape_ok = Type::spec_info(ty) == Some(
                (<V::Scalar as Scalar>::spec_ty(), 1u8, V::spec_dim() as u8),
            );
            &&& (res is Ok <==> shape_ok && spec_seg_wf(d, p, esz))
            &&& res is Ok ==> {
                let off = spec_seg_offset(d, p) as int;
                let n = spec_seg_bytes(d, p) as int / esz;
                let a0 = old(arr).contents();
                let cur = final(arr).contents();
                let pay = spec_seg_payload(d, p);
                &&& final(r).pos == spec_seg_end(d, p)
                &&& cur.len() == (if n == 0 {
                    a0.len() as int
                } else if off + n > a0.len() {
                    off + n
                } else {
                    a0.len() as int
                })
                &&& forall|i: int|
                    0 <= i < a0.len() && !(off <= i < off + n) ==> #[trigger] cur[i] == a0[i]
                &&& forall|i: int|
                    a0.len() <= i < cur.len() && !(off <= i < off + n) ==> (#[trigger] cur[i]).wf()
                        && cur[i].components() == spec_default_components::<V>()
                &&& forall|j: int|
                    0 <= j < n ==> (#[trigger] cur[off + j]).wf() && cur[off + j].components()
                        == spec_parse_scalars::<V::Scalar>(
                        pay.subrange(j * esz, (j + 1) * esz),
                        V::spec_dim(),
                    )
            }
            &&& res is Err ==> res == Err::<(), Error>(spec_seg_error(d, p, esz, shape_ok))
        }),
{
    let ghost d = old(r).data@;
    let ghost p = old(r).pos as int;
    let ghost a0 = old(arr).contents();
    let ghost ssz = <V::Scalar as Scalar>::spec_ty().spec_size() as int;
    let ghost esz = V::spec_dim() * ssz;
    let dim = V::dim();
    let self_ty = <V::Scalar as Scalar>::ty();
    let shape_ok: bool = match Type::info(ty) {
        Some((t, rows, cols)) => t == self_ty && rows == 1 && cols == dim as u8,
        None => false,
    };
    if !shape_ok {
        return Err(Error::ShapeMismatch);
    }
    let mut bytes: u64 = 0;
    let state = state.read_bytes(&mut bytes, r)?;
    let (_, elem_bytes) = self_ty.vector(dim as u8).unwrap();
    proof {
        assert(ssz * dim == dim * ssz) by (nonlinear_arith);
        assert(1 <= esz <= 640) by (nonlinear_arith)
            requires
                esz == V::spec_dim() * ssz,
                1 <= V::spec_dim() <= 80,
                1 <= ssz <= 8,
        ;
    }
    if bytes % elem_bytes != 0 {
        return Err(Error::MalformedFraming);
    }
    let n = bytes / elem_bytes;
    proof {
        lemma_fundamental_div_mod(bytes as int, elem_bytes as int);
    }
    let mut offset: u64 = 0;
    let state = state.read_offset_instance_id(&mut offset, r)?;
    if n > u64::MAX - offset {
        return Err(Error::IndexOverflow);
    }
    let end = offset + n;
    if end > usize::MAX as u64 {
        return Err(Error::IndexOverflow);
    }
    let rem = r.remaining();
    if (rem as u64) < 8 || (rem as u64) - 8 < bytes {
        return Err(Error::IoFailure);
    }
    if n > 0 {
        let end_us = end as usize;
        let off_us = offset as usize;
        let n_us = n as usize;
        let ghost grown_len = if a0.len() > end as int {
            a0.len() as int
        } else {
            end as int
        };
        while arr.len() < end_us
            invariant
                a0 == old(arr).contents(),
                a0.len() <= arr.contents().len() <= grown_len,
                grown_len == if a0.len() > end as int {
                    a0.len() as int
                } else {
                    end as int
                },
                end_us == end,
                forall|i: int| 0 <= i < a0.len() ==> #[trigger] arr.contents()[i] == a0[i],
                forall|i: int|
                    a0.len() <= i < arr.contents().len() ==> (#[trigger] arr.contents()[i]).wf()
                        && arr.contents()[i].components() == spec_default_components::<V>(),
            decreases end_us - arr.contents().len(),
        {
            let dv = V::default_val();
            proof {
                assert(dv.components() =~= spec_default_components::<V>());
            }
            arr.push(dv);
        }
        let ghost p16 = p + 16;
        let mut k: usize = 0;
        while k < n_us
            invariant
                a0 == old(arr).contents(),
                k <= n_us,
                n_us == n,
                end == offset + n,
                end_us == end,
                off_us == offset,
                end <= usize::MAX,
                ssz == <V::Scalar as Scalar>::spec_ty().spec_size() as int,
                esz == V::spec_dim() * ssz,
                dim == V::spec_dim(),
                1 <= dim <= 80,
                1 <= esz <= 640,
                bytes == n * esz,
                p16 == p + 16,
                arr.contents().len() == grown_len,
                grown_len == if a0.len() > end as int {
                    a0.len() as int
                } else {
                    end as int
                },
                r.data@ == d,
                0 <= p,
                p16 + bytes + 8 <= d.len(),
                r.pos == p16 + k * esz,
                forall|i: int|
                    0 <= i < a0.len() && !(offset <= i < offset + k) ==> #[trigger] arr.contents()[i]
                        == a0[i],
                forall|i: int|
                    a0.len() <= i < arr.contents().len() && !(offset <= i < offset + k) ==> (
                    #[trigger] arr.contents()[i]).wf() && arr.contents()[i].components()
                        == spec_default_components::<V>(),
                forall|j: int|
                    0 <= j < k ==> (#[trigger] arr.contents()[offset + j]).wf()
                        && arr.contents()[offset + j].components() == spec_parse_scalars::<
                        V::Scalar,
                    >(d.subrange(p16 + j * esz, p16 + (j + 1) * esz), V::spec_dim()),
            decreases n_us - k,
        {
            proof {
                assert((k + 1) * esz == k * esz + esz && 0 <= k * esz && (k + 1) * esz <= n * esz)
                    by (nonlinear_arith)
                    requires
                        0 <= k < n,
                        esz >= 1,
                ;
            }
            let v = read_vector_elem::<V>(r)?;
            arr.set(off_us + k, v);
            k = k + 1;
        }
        proof {
            assert(k * esz == bytes) by (nonlinear_arith)
                requires
                    k == n,
                    bytes == n * esz,
            ;
        }
    }
    proof {
        if n == 0 {
            assert(bytes == 0) by (nonlinear_arith)
                requires
                    bytes == n * esz,
                    n == 0,
            ;
        }
        assert(r.pos == p + 16 + bytes);
    }
    let state = state.end_data();
    match state.has_end_bytes(r) {
        Ok(_) => {},
        Err(e) => {
            proof {
                assert(!spec_seg_wf(d, p, esz));
                assert(e == spec_seg_error(d, p, esz, true));
            }
            return Err(e);
        },
    }
    proof {
        let pay = spec_seg_payload(d, p);
        let nn = spec_seg_bytes(d, p) as int / esz;
        assert forall|j: int| 0 <= j < nn implies #[trigger] pay.subrange(j * esz, (j + 1) * esz)
            =~= d.subrange(p + 16 + j * esz, p + 16 + (j + 1) * esz) by {
            assert(0 <= j * esz && (j + 1) * esz == j * esz + esz && (j + 1) * esz <= nn * esz)
                by (nonlinear_arith)
                requires
                    0 <= j < nn,
                    esz >= 1,
            ;
        }
    }
    Ok(())
}


/// Implemented by matrix types: fixed-shape grids of scalars, serialized
/// row-major (rows outer, columns inner).
pub trait Matrix: Sized {
    /// Scalar type.
    type Scalar: Scalar;

    /// Whether this value holds exactly rows times columns components.
    spec fn wf(&self) -> bool;

    /// The components in row-major order.
    spec fn components(&self) -> Seq<Self::Scalar>;

    /// The fixed number of rows.
    spec fn spec_rows() -> int;

    /// The fixed number of columns.
    spec fn spec_cols() -> int;

    /// Law: a well-formed value holds exactly rows times columns
    /// components.
    proof fn lemma_wf_len(&self)
        requires
            self.wf(),
        ensures
            self.components().len() == Self::spec_rows() * Self::spec_cols(),
    ;

    /// Returns dimensions, rows first.
    fn dim() -> (d: [usize; 2])
        ensures
            d@.len() == 2,
            d@[0] == Self::spec_rows(),
            d@[1] == Self::spec_cols(),
    ;

    /// Gets value.
    fn get(&self, row: usize, col: usize) -> (v: &Self::Scalar)
        requires
            self.wf(),
            row < Self::spec_rows(),
            col < Self::spec_cols(),
        ensures
            *v == self.components()[row * Self::spec_cols() + col],
    ;

    /// Sets value.
    fn set(&mut self, row: usize, col: usize, val: Self::Scalar)
        requires
            old(self).wf(),
            row < Self::spec_rows(),
            col < Self::spec_cols(),
        ensures
            final(self).wf(),
            final(self).components() == old(self).components().update(
                row * Self::spec_cols() + col,
                val,
            ),
    ;

    /// The zero-filled value, used to fill grown destination slots.
    fn default_val() -> (v: Self)
        requires
            Self::spec_rows() * Self::spec_cols() <= usize::MAX,
            0 <= Self::spec_rows(),
            0 <= Self::spec_cols(),
        ensures
            v.wf(),
            v.components() == Seq::new(
                (Self::spec_rows() * Self::spec_cols()) as nat,
                |q: int| <Self::Scalar as Scalar>::spec_default(),
            ),
    ;
}

/// The components of a freshly grown matrix slot: every component is the
/// scalar zero.
pub open spec fn spec_default_matrix_components<M: Matrix>() -> Seq<M::Scalar> {
    Seq::new(
        (M::spec_rows() * M::spec_cols()) as nat,
        |q: int| <M::Scalar as Scalar>::spec_default(),
    )
}

/// A matrix of a fixed shape, `R` rows by `C` columns, stored row-major:
/// the library's carrier for matrix elements. The shape is checked at
/// construction.
#[derive(Clone, Debug, PartialEq, Eq)]
pub struct FixedMatrix<T, const R: usize, const C: usize> {
    components: Vec<T>,
}

impl<T, const R: usize, const C: usize> FixedMatrix<T, R, C> {
    /// Wraps row-major `components` as an `R` by `C` matrix; `None`
    /// unless it holds exactly `R` times `C` values.
    pub fn new(components: Vec<T>) -> (res: Option<FixedMatrix<T, R, C>>)
        ensures
            res is Some <==> components@.len() == R * C,
            res matches Some(m) ==> m.wf() && m.components() == components@,
    {
        let len = components.len();
        let ok: bool = if R == 0 || C == 0 {
            proof {
                assert((R as int) * (C as int) == 0) by (nonlinear_arith)
                    requires
                        R == 0 || C == 0,
                ;
            }
            len == 0
        } else {
            proof {
                if len as int == (R as int) * (C as int) {
                    lemma_fundamental_div_mod_converse(len as int, C as int, R as int, 0);
                }
                if len % C == 0 && len / C == R {
                    lemma_fundamental_div_mod(len as int, C as int);
                    assert((C as int) * (R as int) == (R as int) * (C as int))
                        by (nonlinear_arith);
                }
            }
            len % C == 0 && len / C == R
        };
        if ok {
            Some(FixedMatrix { components })
        } else {
            None
        }
    }

    /// Unwraps the row-major components.
    pub fn into_vec(self) -> (v: Vec<T>)
        ensures
            v@ == self.components(),
    {
        self.components
    }

    /// Whether this value holds exactly `R` times `C` components.
    pub closed spec fn wf(&self) -> bool {
        self.components@.len() == R * C
    }

    /// The components in row-major order.
    pub closed spec fn components(&self) -> Seq<T> {
        self.components@
    }
}

impl<T: Scalar, const R: usize, const C: usize> Matrix for FixedMatrix<T, R, C> {
    type Scalar = T;

    open spec fn wf(&self) -> bool {
        FixedMatrix::wf(self)
    }

    open spec fn components(&self) -> Seq<T> {
        FixedMatrix::components(self)
    }

    open spec fn spec_rows() -> int {
        R as int
    }

    open spec fn spec_cols() -> int {
        C as int
    }

    proof fn lemma_wf_len(&self) {
    }

    fn dim() -> [usize; 2] {
        [R, C]
    }

    fn get(&self, row: usize, col: usize) -> &T {
        let len = self.components.len();
        proof {
            assert((row as int) * (C as int) + col < (R as int) * (C as int))
                by (nonlinear_arith)
                requires
                    row < R,
                    col < C,
            ;
        }
        &self.components[row * C + col]
    }

    fn set(&mut self, row: usize, col: usize, val: T) {
        let len = self.components.len();
        proof {
            assert((row as int) * (C as int) + col < (R as int) * (C as int))
                by (nonlinear_arith)
                requires
                    row < R,
                    col < C,
            ;
        }
        self.components[row * C + col] = val;
    }

    fn default_val() -> FixedMatrix<T, R, C> {
        let cnt: usize = R * C;
        let mut components: Vec<T> = Vec::new();
        while components.len() < cnt
            invariant
                components@.len() <= cnt,
                cnt == R * C,
                forall|q: int| 0 <= q < components@.len() ==> components@[q] == T::spec_default(),
            decreases cnt - components@.len(),
        {
            components.push(T::default_val());
        }
        let m = FixedMatrix { components };
        proof {
            assert(Matrix::components(&m) =~= Seq::new(
                ((R as int) * (C as int)) as nat,
                |q: int| T::spec_default(),
            ));
        }
        m
    }
}


/// Row-major traversal: position `idx` in the flat component order is row
/// `idx / cols`, column `idx % cols`.
proof fn lemma_flat_index(idx: int, rows: int, cols: int)
    requires
        0 <= idx,
        1 <= cols,
        idx < rows * cols,
    ensures
        0 <= idx / cols < rows,
        0 <= idx % cols < cols,
        (idx / cols) * cols + idx % cols == idx,
{
    lemma_fundamental_div_mod(idx, cols);
    assert(0 <= idx % cols < cols && 0 <= idx / cols && idx / cols < rows && (idx / cols) * cols
        + idx % cols == idx) by (nonlinear_arith)
        requires
            0 <= idx,
            1 <= cols,
            idx < rows * cols,
    ;
}

/// Writes the component bytes of one matrix, row-major.
fn write_matrix_elem<M: Matrix>(m: &M, w: &mut Vec<u8>) -> (res: Result<(), Error>)
    requires
        m.wf(),
        1 <= M::spec_rows() <= 80,
        1 <= M::spec_cols() <= 80,
    ensures
        res is Ok,
        final(w)@ == old(w)@ + spec_scalar_payload(m.components()),
{
    proof {
        m.lemma_wf_len();
    }
    let dim = M::dim();
    let rows = dim[0];
    let cols = dim[1];
    proof {
        assert((rows as int) * (cols as int) <= 6400) by (nonlinear_arith)
            requires
                1 <= rows <= 80,
                1 <= cols <= 80,
        ;
    }
    let cnt: usize = rows * cols;
    let mut idx: usize = 0;
    while idx < cnt
        invariant
            m.wf(),
            idx <= cnt,
            rows == M::spec_rows(),
            cols == M::spec_cols(),
            1 <= rows <= 80,
            1 <= cols <= 80,
            cnt == rows * cols,
            m.components().len() == cnt,
            w@ == old(w)@ + spec_scalar_payload(m.components().take(idx as int)),
        decreases cnt - idx,
    {
        proof {
            lemma_flat_index(idx as int, rows as int, cols as int);
        }
        m.get(idx / cols, idx % cols).write(w)?;
        proof {
            assert(m.components().take(idx as int).push(m.components()[idx as int])
                =~= m.components().take(idx as int + 1));
            lemma_scalar_payload_push::<M::Scalar>(
                m.components().take(idx as int),
                m.components()[idx as int],
            );
            assert(w@ =~= old(w)@ + spec_scalar_payload(m.components().take(idx as int + 1)));
        }
        idx = idx + 1;
    }
    proof {
        assert(m.components().take(cnt as int) =~= m.components());
    }
    Ok(())
}

/// Reads the component bytes of one matrix, row-major.
fn read_matrix_elem<M: Matrix>(r: &mut Source) -> (res: Result<M, Error>)
    requires
        1 <= M::spec_rows() <= 80,
        1 <= M::spec_cols() <= 80,
        old(r).pos + M::spec_rows() * M::spec_cols() * <M::Scalar as Scalar>::spec_ty().spec_size()
            <= old(r).data@.len(),
    ensures
        final(r).data@ == old(r).data@,
        final(r).pos == old(r).pos + M::spec_rows() * M::spec_cols() * <M::Scalar as Scalar>::spec_ty().spec_size(),
        res matches Ok(v) && v.wf() && v.components() == spec_parse_scalars::<M::Scalar>(
            old(r).data@.subrange(
                old(r).pos as int,
                old(r).pos + M::spec_rows() * M::spec_cols() * <M::Scalar as Scalar>::spec_ty().spec_size(),
            ),
            M::spec_rows() * M::spec_cols(),
        ),
{
    let ghost d = old(r).data@;
    let ghost p = old(r).pos as int;
    let ghost ssz = <M::Scalar as Scalar>::spec_ty().spec_size() as int;
    proof {
        assert(1 <= ssz <= 8);
    }
    let dim = M::dim();
    let rows = dim[0];
    let cols = dim[1];
    proof {
        assert((rows as int) * (cols as int) <= 6400) by (nonlinear_arith)
            requires
                1 <= rows <= 80,
                1 <= cols <= 80,
        ;
    }
    let cnt: usize = rows * cols;
    let mut out = M::default_val();
    proof {
        out.lemma_wf_len();
    }
    let mut idx: usize = 0;
    while idx < cnt
        invariant
            idx <= cnt,
            rows == M::spec_rows(),
            cols == M::spec_cols(),
            1 <= rows <= 80,
            1 <= cols <= 80,
            cnt == rows * cols,
            out.wf(),
            out.components().len() == cnt,
            ssz == <M::Scalar as Scalar>::spec_ty().spec_size() as int,
            1 <= ssz <= 8,
            r.data@ == d,
            0 <= p,
            p + cnt * ssz <= d.len(),
            r.pos == p + idx * ssz,
            forall|q: int|
                0 <= q < idx ==> out.components()[q] == <M::Scalar as Scalar>::spec_from_bytes(
                    d.subrange(p + q * ssz, p + (q + 1) * ssz),
                ),
        decreases cnt - idx,
    {
        proof {
            lemma_flat_index(idx as int, rows as int, cols as int);
            assert((idx + 1) * ssz == idx * ssz + ssz && 0 <= idx * ssz && (idx + 1) * ssz <= cnt
                * ssz) by (nonlinear_arith)
                requires
                    0 <= idx < cnt,
                    ssz >= 1,
            ;
        }
        let mut sc = <M::Scalar as Scalar>::default_val();
        sc.read(r)?;
        out.set(idx / cols, idx % cols, sc);
        proof {
            out.lemma_wf_len();
        }
        idx = idx + 1;
    }
    proof {
        let parsed = spec_parse_scalars::<M::Scalar>(d.subrange(p, p + cnt * ssz), cnt as int);
        assert forall|q: int| 0 <= q < cnt implies parsed[q] == out.components()[q] by {
            assert((q + 1) * ssz == q * ssz + ssz && 0 <= q * ssz && (q + 1) * ssz <= cnt * ssz)
                by (nonlinear_arith)
                requires
                    0 <= q < cnt,
                    ssz >= 1,
            ;
            assert(d.subrange(p, p + cnt * ssz).subrange(q * ssz, (q + 1) * ssz) =~= d.subrange(
                p + q * ssz,
                p + (q + 1) * ssz,
            ));
        }
        assert(out.components() =~= parsed);
    }
    Ok(out)
}


/// Writes one matrix as a whole block under `property_id`: a single
/// segment at offset zero holding the matrix's components row-major.
pub fn write_matrix_property<M: Matrix>(value: &M, property_id: u16, w: &mut Vec<u8>) -> (res:
    Result<(), Error>)
    requires
        value.wf(),
        1 <= M::spec_rows() <= 80,
        1 <= M::spec_cols() <= 80,
    ensures
        res is Ok,
        final(w)@ == old(w)@ + spec_property_block(
            <M::Scalar as Scalar>::spec_ty().spec_matrix_code(
                M::spec_rows() as u8,
                M::spec_cols() as u8,
            ),
            property_id,
            spec_scalar_payload(value.components()),
        ),
{
    let dim = M::dim();
    let rows = dim[0];
    let cols = dim[1];
    let (code, s) = <M::Scalar as Scalar>::ty().matrix(rows as u8, cols as u8).unwrap();
    let state = State::new().write_type_format(code, w)?.write_property_id(
        property_id,
        w,
    )?.write_bytes(s, w)?.write_offset_instance_id(0, w)?;
    write_matrix_elem(value, w)?;
    state.end_data().end_bytes(w)?;
    proof {
        value.lemma_wf_len();
        lemma_scalar_payload_len::<M::Scalar>(value.components());
        let ssz = <M::Scalar as Scalar>::spec_ty().spec_size() as int;
        let rr = M::spec_rows();
        let cc = M::spec_cols();
        assert((rr * cc) * ssz == ssz * rr * cc) by (nonlinear_arith);
        assert(w@ =~= old(w)@ + spec_property_block(
            <M::Scalar as Scalar>::spec_ty().spec_matrix_code(
                M::spec_rows() as u8,
                M::spec_cols() as u8,
            ),
            property_id,
            spec_scalar_payload(value.components()),
        ));
    }
    Ok(())
}

/// Writes an array of matrices as a whole block under `property_id`: a
/// single segment at offset zero holding every element's components
/// row-major, in array order.
pub fn write_matrix_array<M: Matrix, A: Array<Item = M>>(
    property_id: u16,
    arr: &A,
    w: &mut Vec<u8>,
) -> (res: Result<(), Error>)
    requires
        1 <= M::spec_rows() <= 80,
        1 <= M::spec_cols() <= 80,
        forall|i: int| 0 <= i < arr.contents().len() ==> (#[trigger] arr.contents()[i]).wf(),
        arr.contents().len() * (M::spec_rows() * M::spec_cols()
            * <M::Scalar as Scalar>::spec_ty().spec_size()) <= u64::MAX,
    ensures
        res is Ok,
        final(w)@ == old(w)@ + spec_property_block(
            <M::Scalar as Scalar>::spec_ty().spec_matrix_code(
                M::spec_rows() as u8,
                M::spec_cols() as u8,
            ),
            property_id,
            spec_elems_payload(arr.contents().map_values(|m: M| m.components())),
        ),
{
    let n = arr.len();
    let dim = M::dim();
    let rows = dim[0];
    let cols = dim[1];
    let (code, s) = <M::Scalar as Scalar>::ty().matrix(rows as u8, cols as u8).unwrap();
    proof {
        let ssz = <M::Scalar as Scalar>::spec_ty().spec_size() as int;
        let rr = M::spec_rows();
        let cc = M::spec_cols();
        assert((s as int) * (n as int) == (n as int) * ((rr * cc) * ssz) && (rr * cc) * ssz == ssz
            * rr * cc) by (nonlinear_arith)
            requires
                s == ssz * rr * cc,
        ;
    }
    let state = State::new().write_type_format(code, w)?.write_property_id(
        property_id,
        w,
    )?.write_bytes(s * n as u64, w)?.write_offset_instance_id(0, w)?;
    let ghost prefix = w@;
    let ghost cmap = arr.contents().map_values(|m: M| m.components());
    let mut k: usize = 0;
    while k < n
        invariant
            k <= n,
            n == arr.contents().len(),
            1 <= M::spec_rows() <= 80,
            1 <= M::spec_cols() <= 80,
            cmap == arr.contents().map_values(|m: M| m.components()),
            forall|i: int| 0 <= i < arr.contents().len() ==> (#[trigger] arr.contents()[i]).wf(),
            w@ == prefix + spec_elems_payload(cmap.take(k as int)),
        decreases n - k,
    {
        write_matrix_elem(arr.get(k), w)?;
        proof {
            assert(cmap.take(k as int).push(arr.contents()[k as int].components()) =~= cmap.take(
                k as int + 1,
            ));
            lemma_elems_payload_push::<M::Scalar>(
                cmap.take(k as int),
                arr.contents()[k as int].components(),
            );
            assert(w@ =~= prefix + spec_elems_payload(cmap.take(k as int + 1)));
        }
        k = k + 1;
    }
    state.end_data().end_bytes(w)?;
    proof {
        assert(cmap.take(n as int) =~= cmap);
        assert forall|q: int| 0 <= q < cmap.len() implies (#[trigger] cmap[q]).len()
            == M::spec_rows() * M::spec_cols() by {
            arr.contents()[q].lemma_wf_len();
        }
        lemma_elems_payload_len::<M::Scalar>(cmap, M::spec_rows() * M::spec_cols());
        assert(w@ =~= old(w)@ + spec_property_block(
            <M::Scalar as Scalar>::spec_ty().spec_matrix_code(
                M::spec_rows() as u8,
                M::spec_cols() as u8,
            ),
            property_id,
            spec_elems_payload(cmap),
        ));
    }
    Ok(())
}

/// Reads one matrix from a block whose type format and property id have
/// already been consumed: one single-value segment, then the zero byte
/// count that ends the block.
#[verifier::rlimit(60)]
pub fn read_matrix_property<M: Matrix>(
    value: &mut M,
    state: State<Bytes>,
    ty: u16,
    r: &mut Source,
) -> (res: Result<(), Error>)
    requires
        1 <= M::spec_rows() <= 80,
        1 <= M::spec_cols() <= 80,
    ensures
        final(r).data@ == old(r).data@,
        ({
            let d = old(r).data@;
            let p = old(r).pos as int;
            let esz = M::spec_rows() * M::spec_cols()
                * <M::Scalar as Scalar>::spec_ty().spec_size();
            let shape_ok = Type::spec_info(ty) == Some(
                (
                    <M::Scalar as Scalar>::spec_ty(),
                    M::spec_rows() as u8,
                    M::spec_cols() as u8,
                ),
            );
            &&& (res is Ok <==> shape_ok && spec_prop_wf(d, p, esz))
            &&& res is Ok ==> {
                &&& final(r).pos == spec_seg_end(d, p)
                &&& final(value).wf()
                &&& final(value).components() == spec_parse_scalars::<M::Scalar>(
                    d.subrange(p + 16, p + 16 + esz),
                    M::spec_rows() * M::spec_cols(),
                )
            }
            &&& res is Err ==> res == Err::<(), Error>(spec_prop_error(d, p, esz, shape_ok))
        }),
{
    let dim = M::dim();
    let rows = dim[0];
    let cols = dim[1];
    let self_ty = <M::Scalar as Scalar>::ty();
    let shape_ok: bool = match Type::info(ty) {
        Some((t, rw, cl)) => t == self_ty && rw == rows as u8 && cl == cols as u8,
        None => false,
    };
    if !shape_ok {
        return Err(Error::ShapeMismatch);
    }
    let mut bytes: u64 = 0;
    let state = state.read_bytes(&mut bytes, r)?;
    let (_, elem_bytes) = self_ty.matrix(rows as u8, cols as u8).unwrap();
    proof {
        let ssz = <M::Scalar as Scalar>::spec_ty().spec_size() as int;
        let rr = M::spec_rows();
        let cc = M::spec_cols();
        assert(ssz * rr * cc == (rr * cc) * ssz) by (nonlinear_arith);
    }
    if bytes != elem_bytes {
        return Err(Error::MalformedFraming);
    }
    let mut offset: u64 = 0;
    let state = state.read_offset_instance_id(&mut offset, r)?;
    if offset != 0 {
        return Err(Error::MalformedFraming);
    }
    let rem = r.remaining();
    if (rem as u64) < 8 || (rem as u64) - 8 < bytes {
        return Err(Error::IoFailure);
    }
    *value = read_matrix_elem::<M>(r)?;
    state.end_data().has_end_bytes(r)?;
    Ok(())
}

/// Reads an array of matrices from a block whose type format and property
/// id have already been consumed: one segment, placed into `arr` starting
/// at the segment's offset instance id — growing `arr` with zero-filled
/// matrices where needed and leaving other slots untouched — and then the
/// zero byte count that ends the block.
#[verifier::rlimit(60)]
pub fn read_matrix_array<M: Matrix, A: Array<Item = M>>(
    state: State<Bytes>,
    ty: u16,
    arr: &mut A,
    r: &mut Source,
) -> (res: Result<(), Error>)
    requires
        1 <= M::spec_rows() <= 80,
        1 <= M::spec_cols() <= 80,
    ensures
        final(r).data@ == old(r).data@,
        ({
            let d = old(r).data@;
            let p = old(r).pos as int;
            let esz = M::spec_rows() * M::spec_cols()
                * <M::Scalar as Scalar>::spec_ty().spec_size();
            let shape_ok = Type::spec_info(ty) == Some(
                (
                    <M::Scalar as Scalar>::spec_ty(),
                    M::spec_rows() as u8,
                    M::spec_cols() as u8,
                ),
            );
            &&& (res is Ok <==> shape_ok && spec_seg_wf(d, p, esz))
            &&& res is Ok ==> {
                let off = spec_seg_offset(d, p) as int;
                let n = spec_seg_bytes(d, p) as int / esz;
                let a0 = old(arr).contents();
                let cur = final(arr).contents();
                let pay = spec_seg_payload(d, p);
                &&& final(r).pos == spec_seg_end(d, p)
                &&& cur.len() == (if n == 0 {
                    a0.len() as int
                } else if off + n > a0.len() {
                    off + n
                } else {
                    a0.len() as int
                })
                &&& forall|i: int|
                    0 <= i < a0.len() && !(off <= i < off + n) ==> #[trigger] cur[i] == a0[i]
                &&& forall|i: int|
                    a0.len() <= i < cur.len() && !(off <= i < off + n) ==> (#[trigger] cur[i]).wf()
                        && cur[i].components() == spec_default_matrix_components::<M>()
                &&& forall|j: int|
                    0 <= j < n ==> (#[trigger] cur[off + j]).wf() && cur[off + j].components()
                        == spec_parse_scalars::<M::Scalar>(
                        pay.subrange(j * esz, (j + 1) * esz),
                        M::spec_rows() * M::spec_cols(),
                    )
            }
            &&& res is Err ==> res == Err::<(), Error>(spec_seg_error(d, p, esz, shape_ok))
        }),
{
    let ghost d = old(r).data@;
    let ghost p = old(r).pos as int;
    let ghost a0 = old(arr).contents();
    let ghost ssz = <M::Scalar as Scalar>::spec_ty().spec_size() as int;
    let ghost esz = M::spec_rows() * M::spec_cols() * ssz;
    let dim = M::dim();
    let rows = dim[0];
    let cols = dim[1];
    let self_ty = <M::Scalar as Scalar>::ty();
    let shape_ok: bool = match Type::info(ty) {
        Some((t, rw, cl)) => t == self_ty && rw == rows as u8 && cl == cols as u8,
        None => false,
    };
    if !shape_ok {
        return Err(Error::ShapeMismatch);
    }
    let mut bytes: u64 = 0;
    let state = state.read_bytes(&mut bytes, r)?;
    let (_, elem_bytes) = self_ty.matrix(rows as u8, cols as u8).unwrap();
    proof {
        let rr = M::spec_rows();
        let cc = M::spec_cols();
        assert(ssz * rr * cc == (rr * cc) * ssz) by (nonlinear_arith);
        assert(1 <= esz <= 51200) by (nonlinear_arith)
            requires
                esz == rr * cc * ssz,
                1 <= rr <= 80,
                1 <= cc <= 80,
                1 <= ssz <= 8,
        ;
    }
    if bytes % elem_bytes != 0 {
        return Err(Error::MalformedFraming);
    }
    let n = bytes / elem_bytes;
    proof {
        lemma_fundamental_div_mod(bytes as int, elem_bytes as int);
    }
    let mut offset: u64 = 0;
    let state = state.read_offset_instance_id(&mut offset, r)?;
    if n > u64::MAX - offset {
        return Err(Error::IndexOverflow);
    }
    let end = offset + n;
    if end > usize::MAX as u64 {
        return Err(Error::IndexOverflow);
    }
    let rem = r.remaining();
    if (rem as u64) < 8 || (rem as u64) - 8 < bytes {
        return Err(Error::IoFailure);
    }
    if n > 0 {
        let end_us = end as usize;
        let off_us = offset as usize;
        let n_us = n as usize;
        let ghost grown_len = if a0.len() > end as int {
            a0.len() as int
        } else {
            end as int
        };
        while arr.len() < end_us
            invariant
                a0 == old(arr).contents(),
                a0.len() <= arr.contents().len() <= grown_len,
                grown_len == if a0.len() > end as int {
                    a0.len() as int
                } else {
                    end as int
                },
                end_us == end,
                1 <= M::spec_rows() <= 80,
                1 <= M::spec_cols() <= 80,
                forall|i: int| 0 <= i < a0.len() ==> #[trigger] arr.contents()[i] == a0[i],
                forall|i: int|
                    a0.len() <= i < arr.contents().len() ==> (#[trigger] arr.contents()[i]).wf()
                        && arr.contents()[i].components()
                        == spec_default_matrix_components::<M>(),
            decreases end_us - arr.contents().len(),
        {
            proof {
                assert(1 <= M::spec_rows() * M::spec_cols() <= 6400) by (nonlinear_arith)
                    requires
                        1 <= M::spec_rows() <= 80,
                        1 <= M::spec_cols() <= 80,
                ;
            }
            let dv = M::default_val();
            proof {
                assert(dv.components() =~= spec_default_matrix_components::<M>());
            }
            arr.push(dv);
        }
        let ghost p16 = p + 16;
        let mut k: usize = 0;
        while k < n_us
            invariant
                a0 == old(arr).contents(),
                k <= n_us,
                n_us == n,
                end == offset + n,
                end_us == end,
                off_us == offset,
                end <= usize::MAX,
                ssz == <M::Scalar as Scalar>::spec_ty().spec_size() as int,
                esz == M::spec_rows() * M::spec_cols() * ssz,
                rows == M::spec_rows(),
                cols == M::spec_cols(),
                1 <= rows <= 80,
                1 <= cols <= 80,
                1 <= esz <= 51200,
                bytes == n * esz,
                p16 == p + 16,
                arr.contents().len() == grown_len,
                grown_len == if a0.len() > end as int {
                    a0.len() as int
                } else {
                    end as int
                },
                r.data@ == d,
                0 <= p,
                p16 + bytes + 8 <= d.len(),
                r.pos == p16 + k * esz,
                forall|i: int|
                    0 <= i < a0.len() && !(offset <= i < offset + k) ==> #[trigger] arr.contents()[i]
                        == a0[i],
                forall|i: int|
                    a0.len() <= i < arr.contents().len() && !(offset <= i < offset + k) ==> (
                    #[trigger] arr.contents()[i]).wf() && arr.contents()[i].components()
                        == spec_default_matrix_components::<M>(),
                forall|j: int|
                    0 <= j < k ==> (#[trigger] arr.contents()[offset + j]).wf()
                        && arr.contents()[offset + j].components() == spec_parse_scalars::<
                        M::Scalar,
                    >(
                        d.subrange(p16 + j * esz, p16 + (j + 1) * esz),
                        M::spec_rows() * M::spec_cols(),
                    ),
            decreases n_us - k,
        {
            proof {
                assert((k + 1) * esz == k * esz + esz && 0 <= k * esz && (k + 1) * esz <= n * esz)
                    by (nonlinear_arith)
                    requires
                        0 <= k < n,
                        esz >= 1,
                ;
            }
            let v = read_matrix_elem::<M>(r)?;
            arr.set(off_us + k, v);
            k = k + 1;
        }
        proof {
            assert(k * esz == bytes) by (nonlinear_arith)
                requires
                    k == n,
                    bytes == n * esz,
            ;
        }
    }
    proof {
        if n == 0 {
            assert(bytes == 0) by (nonlinear_arith)
                requires
                    bytes == n * esz,
                    n == 0,
            ;
        }
        assert(r.pos == p + 16 + bytes);
    }
    let state = state.end_data();
    match state.has_end_bytes(r) {
        Ok(_) => {},
        Err(e) => {
            proof {
                assert(!spec_seg_wf(d, p, esz));
                assert(e == spec_seg_error(d, p, esz, true));
            }
            return Err(e);
        },
    }
    proof {
        let pay = spec_seg_payload(d, p);
        let nn = spec_seg_bytes(d, p) as int / esz;
        assert forall|j: int| 0 <= j < nn implies #[trigger] pay.subrange(j * esz, (j + 1) * esz)
            =~= d.subrange(p + 16 + j * esz, p + 16 + (j + 1) * esz) by {
            assert(0 <= j * esz && (j + 1) * esz == j * esz + esz && (j + 1) * esz <= nn * esz)
                by (nonlinear_arith)
                requires
                    0 <= j < nn,
                    esz >= 1,
            ;
        }
    }
    Ok(())
}

} // verus!
