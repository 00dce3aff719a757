use binpool::read_matrix_array;
use binpool::read_matrix_property;
use binpool::read_scalar_array;
use binpool::read_scalar_property;
use binpool::read_vector_array;
use binpool::read_vector_property;
use binpool::write_matrix_array;
use binpool::write_matrix_property;
use binpool::write_scalar_array;
use binpool::write_scalar_property;
use binpool::write_vector_array;
use binpool::write_vector_property;
use binpool::Error;
use binpool::F32Bits;
use binpool::F64Bits;
use binpool::FixedMatrix;
use binpool::FixedVector;
use binpool::Source;
use binpool::State;
use binpool::Type;

/// Reads back one scalar-array block from `saved` into `dest`.
fn read_back<T: binpool::Scalar>(saved: &[u8], dest: &mut Vec<T>) {
    let mut r = Source::new(saved.to_vec());
    let (state, ty, _prop) = State::read(&mut r).unwrap();
    read_scalar_array(state.unwrap(), ty, dest, &mut r).unwrap();
}

fn scalar_round_trip<T: binpool::Scalar + PartialEq + std::fmt::Debug + Clone>(values: Vec<T>) {
    for n in 0..=values.len() {
        let arr: Vec<T> = values[..n].to_vec();
        let mut w: Vec<u8> = Vec::new();
        write_scalar_array(11, &arr, &mut w).unwrap();
        let mut dest: Vec<T> = Vec::new();
        read_back(&w, &mut dest);
        assert_eq!(dest, arr);
    }
}

#[test]
fn round_trip_u8() {
    scalar_round_trip::<u8>(vec![0, 1, 127, 255]);
}

#[test]
fn round_trip_u16() {
    scalar_round_trip::<u16>(vec![0, 1, 0x1234, u16::MAX]);
}

#[test]
fn round_trip_u32() {
    scalar_round_trip::<u32>(vec![0, 1, 0xDEAD_BEEF, u32::MAX]);
}

#[test]
fn round_trip_u64() {
    scalar_round_trip::<u64>(vec![0, 1, 0x0102_0304_0506_0708, u64::MAX]);
}

#[test]
fn round_trip_i8() {
    scalar_round_trip::<i8>(vec![0, 1, -1, i8::MIN, i8::MAX]);
}

#[test]
fn round_trip_i16() {
    scalar_round_trip::<i16>(vec![0, -1, i16::MIN, i16::MAX]);
}

#[test]
fn round_trip_i32() {
    scalar_round_trip::<i32>(vec![0, -1, i32::MIN, i32::MAX]);
}

#[test]
fn round_trip_i64() {
    scalar_round_trip::<i64>(vec![0, -1, i64::MIN, i64::MAX]);
}

#[test]
fn round_trip_f32_bits_keeps_nan_and_signed_zero() {
    let values = vec![
        F32Bits(1.5f32.to_bits()),
        F32Bits((-0.0f32).to_bits()),
        F32Bits(0x7FC0_0001), // a NaN with a payload
        F32Bits(f32::INFINITY.to_bits()),
    ];
    scalar_round_trip::<F32Bits>(values.clone());
    let mut w: Vec<u8> = Vec::new();
    write_scalar_array(0, &values, &mut w).unwrap();
    let mut dest: Vec<F32Bits> = Vec::new();
    read_back(&w, &mut dest);
    assert_eq!(f32::from_bits(dest[0].0), 1.5f32);
    assert!(f32::from_bits(dest[1].0).is_sign_negative());
    assert_eq!(dest[2].0, 0x7FC0_0001);
}

#[test]
fn round_trip_f64_bits() {
    scalar_round_trip::<F64Bits>(vec![
        F64Bits(2.75f64.to_bits()),
        F64Bits((-0.0f64).to_bits()),
        F64Bits(0x7FF8_0000_0000_0001),
    ]);
}

#[test]
fn round_trip_scalar_property() {
    let mut w: Vec<u8> = Vec::new();
    write_scalar_property(&0xABCDu16, 3, &mut w).unwrap();
    let mut r = Source::new(w);
    let (state, ty, prop) = State::read(&mut r).unwrap();
    assert_eq!(prop, 3);
    let mut value: u16 = 0;
    read_scalar_property(&mut value, state.unwrap(), ty, &mut r).unwrap();
    assert_eq!(value, 0xABCD);
    assert_eq!(r.remaining(), 0);
}

#[test]
fn written_bytes_match_wire_format_exactly() {
    // One u16 array [0x1234] under property id 7, checked byte by byte.
    let mut w: Vec<u8> = Vec::new();
    write_scalar_array(7, &vec![0x1234u16], &mut w).unwrap();
    let mut expected: Vec<u8> = vec![0x01, 0x19, 0x07, 0x00]; // code 6401, pid 7
    expected.extend_from_slice(&2u64.to_le_bytes());
    expected.extend_from_slice(&0u64.to_le_bytes());
    expected.extend_from_slice(&[0x34, 0x12]);
    expected.extend_from_slice(&0u64.to_le_bytes());
    assert_eq!(w, expected);
}

#[test]
fn round_trip_vectors() {
    fn one<const N: usize>() {
        let a = FixedVector::<u32, N>::new((0..N as u32).collect()).unwrap();
        let b = FixedVector::<u32, N>::new((100..100 + N as u32).collect()).unwrap();
        let arr = vec![a, b];
        let mut w: Vec<u8> = Vec::new();
        write_vector_array(5, &arr, &mut w).unwrap();
        let mut r = Source::new(w);
        let (state, ty, _) = State::read(&mut r).unwrap();
        let mut dest: Vec<FixedVector<u32, N>> = Vec::new();
        read_vector_array(state.unwrap(), ty, &mut dest, &mut r).unwrap();
        assert_eq!(dest, arr);
        assert_eq!(r.remaining(), 0);
    }
    one::<2>();
    one::<3>();
    one::<4>();
    one::<80>();
}

#[test]
fn round_trip_vector_property() {
    let v = FixedVector::<i16, 3>::new(vec![-1, 2, -3]).unwrap();
    let mut w: Vec<u8> = Vec::new();
    write_vector_property(&v, 9, &mut w).unwrap();
    let mut r = Source::new(w);
    let (state, ty, prop) = State::read(&mut r).unwrap();
    assert_eq!(prop, 9);
    let mut dest = FixedVector::<i16, 3>::new(vec![0, 0, 0]).unwrap();
    read_vector_property(&mut dest, state.unwrap(), ty, &mut r).unwrap();
    assert_eq!(dest, v);
}

#[test]
fn round_trip_matrices() {
    fn one<const R: usize, const C: usize>() {
        let a = FixedMatrix::<i64, R, C>::new((0..(R * C) as i64).map(|x| -x).collect()).unwrap();
        let b = FixedMatrix::<i64, R, C>::new((0..(R * C) as i64).collect()).unwrap();
        let arr = vec![a, b];
        let mut w: Vec<u8> = Vec::new();
        write_matrix_array(6, &arr, &mut w).unwrap();
        let mut r = Source::new(w);
        let (state, ty, _) = State::read(&mut r).unwrap();
        let mut dest: Vec<FixedMatrix<i64, R, C>> = Vec::new();
        read_matrix_array(state.unwrap(), ty, &mut dest, &mut r).unwrap();
        assert_eq!(dest, arr);
    }
    one::<2, 2>();
    one::<2, 3>();
    one::<3, 2>();
    one::<3, 3>();
    one::<3, 4>();
    one::<4, 3>();
    one::<4, 4>();
    one::<80, 80>();
}

#[test]
fn round_trip_matrix_property() {
    let m = FixedMatrix::<F64Bits, 2, 3>::new(
        (0..6).map(|x| F64Bits((x as f64 * 0.5).to_bits())).collect(),
    )
    .unwrap();
    let mut w: Vec<u8> = Vec::new();
    write_matrix_property(&m, 2, &mut w).unwrap();
    let mut r = Source::new(w);
    let (state, ty, _) = State::read(&mut r).unwrap();
    let mut dest = FixedMatrix::<F64Bits, 2, 3>::new(vec![F64Bits(0); 6]).unwrap();
    read_matrix_property(&mut dest, state.unwrap(), ty, &mut r).unwrap();
    assert_eq!(dest, m);
}

#[test]
fn matrix_elements_are_row_major() {
    // A 2 by 3 u8 matrix writes its payload row by row.
    let m = FixedMatrix::<u8, 2, 3>::new(vec![1, 2, 3, 4, 5, 6]).unwrap();
    let mut w: Vec<u8> = Vec::new();
    write_matrix_property(&m, 0, &mut w).unwrap();
    let payload = &w[4 + 16..4 + 16 + 6];
    assert_eq!(payload, &[1, 2, 3, 4, 5, 6]);
}

#[test]
fn idempotent_reread() {
    // Two independent traversals of the same saved stream give the same
    // result.
    let arr: Vec<u32> = vec![10, 20, 30];
    let mut w: Vec<u8> = Vec::new();
    write_scalar_array(1, &arr, &mut w).unwrap();
    let mut first: Vec<u32> = Vec::new();
    let mut second: Vec<u32> = Vec::new();
    read_back(&w, &mut first);
    read_back(&w, &mut second);
    assert_eq!(first, second);
    assert_eq!(first, arr);
}

/// One whole block holding a single segment, framed by hand.
fn manual_block(code: u16, prop: u16, bytes: u64, offset: u64, payload: &[u8]) -> Vec<u8> {
    let mut w: Vec<u8> = Vec::new();
    w.extend_from_slice(&code.to_le_bytes());
    w.extend_from_slice(&prop.to_le_bytes());
    w.extend_from_slice(&bytes.to_le_bytes());
    w.extend_from_slice(&offset.to_le_bytes());
    w.extend_from_slice(payload);
    w.extend_from_slice(&0u64.to_le_bytes());
    w
}

#[test]
fn partial_update() {
    // Write [1, 2, 3], then write [9] at offset 1 under the same property
    // id in a second block; reading both yields [1, 9, 3].
    let mut w: Vec<u8> = Vec::new();
    write_scalar_array(4, &vec![1u16, 2, 3], &mut w).unwrap();
    let (code, _) = Type::U16.scalar();
    w.extend_from_slice(&manual_block(code, 4, 2, 1, &9u16.to_le_bytes()));

    let mut r = Source::new(w);
    let mut dest: Vec<u16> = Vec::new();
    let (state, ty, prop) = State::read(&mut r).unwrap();
    assert_eq!(prop, 4);
    read_scalar_array(state.unwrap(), ty, &mut dest, &mut r).unwrap();
    assert_eq!(dest, vec![1, 2, 3]);
    let (state, ty, prop) = State::read(&mut r).unwrap();
    assert_eq!(prop, 4);
    read_scalar_array(state.unwrap(), ty, &mut dest, &mut r).unwrap();
    assert_eq!(dest, vec![1, 9, 3]);
}

#[test]
fn growth_on_read() {
    // A segment with offset 5 and two elements, read into an empty
    // destination: length 7, zeros below the written range.
    let (code, _) = Type::U32.scalar();
    let mut payload: Vec<u8> = Vec::new();
    payload.extend_from_slice(&77u32.to_le_bytes());
    payload.extend_from_slice(&88u32.to_le_bytes());
    let w = manual_block(code, 0, 8, 5, &payload);
    let mut r = Source::new(w);
    let (state, ty, _) = State::read(&mut r).unwrap();
    let mut dest: Vec<u32> = Vec::new();
    read_scalar_array(state.unwrap(), ty, &mut dest, &mut r).unwrap();
    assert_eq!(dest, vec![0, 0, 0, 0, 0, 77, 88]);
}

#[test]
fn shape_mismatch_detected() {
    // A 3 by 3 f32 matrix block read as a 2 by 2 i32 matrix fails.
    let m = FixedMatrix::<F32Bits, 3, 3>::new(vec![F32Bits(1.0f32.to_bits()); 9]).unwrap();
    let mut w: Vec<u8> = Vec::new();
    write_matrix_array(8, &vec![m], &mut w).unwrap();
    let mut r = Source::new(w);
    let (state, ty, _) = State::read(&mut r).unwrap();
    let mut dest: Vec<FixedMatrix<i32, 2, 2>> = Vec::new();
    let err = read_matrix_array(state.unwrap(), ty, &mut dest, &mut r).unwrap_err();
    assert_eq!(err, Error::ShapeMismatch);
    assert!(dest.is_empty());
}

#[test]
fn non_multiple_byte_count_is_malformed() {
    // Three payload bytes under a u16 scalar code: not a multiple of 2.
    let (code, _) = Type::U16.scalar();
    let w = manual_block(code, 0, 3, 0, &[1, 2, 3]);
    let mut r = Source::new(w);
    let (state, ty, _) = State::read(&mut r).unwrap();
    let mut dest: Vec<u16> = Vec::new();
    let err = read_scalar_array(state.unwrap(), ty, &mut dest, &mut r).unwrap_err();
    assert_eq!(err, Error::MalformedFraming);
}

#[test]
fn single_value_read_rejects_nonzero_offset() {
    let (code, _) = Type::U16.scalar();
    let w = manual_block(code, 0, 2, 1, &9u16.to_le_bytes());
    let mut r = Source::new(w);
    let (state, ty, _) = State::read(&mut r).unwrap();
    let mut value: u16 = 0;
    let err = read_scalar_property(&mut value, state.unwrap(), ty, &mut r).unwrap_err();
    assert_eq!(err, Error::MalformedFraming);
}

#[test]
fn single_value_read_rejects_wrong_byte_count() {
    let (code, _) = Type::U16.scalar();
    let w = manual_block(code, 0, 4, 0, &[1, 2, 3, 4]);
    let mut r = Source::new(w);
    let (state, ty, _) = State::read(&mut r).unwrap();
    let mut value: u16 = 0;
    let err = read_scalar_property(&mut value, state.unwrap(), ty, &mut r).unwrap_err();
    assert_eq!(err, Error::MalformedFraming);
}

#[test]
fn nonzero_end_marker_is_malformed() {
    let (code, _) = Type::U8.scalar();
    let mut w = manual_block(code, 0, 1, 0, &[42]);
    let len = w.len();
    w[len - 8] = 1; // corrupt the zero byte count that ends the block
    let mut r = Source::new(w);
    let (state, ty, _) = State::read(&mut r).unwrap();
    let mut dest: Vec<u8> = Vec::new();
    let err = read_scalar_array(state.unwrap(), ty, &mut dest, &mut r).unwrap_err();
    assert_eq!(err, Error::MalformedFraming);
}

#[test]
fn index_overflow_rejected() {
    // An offset near u64::MAX would push the target range past the
    // addressable indices.
    let (code, _) = Type::U8.scalar();
    let w = manual_block(code, 0, 1, u64::MAX, &[42]);
    let mut r = Source::new(w);
    let (state, ty, _) = State::read(&mut r).unwrap();
    let mut dest: Vec<u8> = Vec::new();
    let err = read_scalar_array(state.unwrap(), ty, &mut dest, &mut r).unwrap_err();
    assert_eq!(err, Error::IndexOverflow);
}

#[test]
fn truncated_payload_is_io_failure() {
    let mut w: Vec<u8> = Vec::new();
    write_scalar_array(0, &vec![1u32, 2], &mut w).unwrap();
    w.truncate(w.len() - 12); // lose part of the payload and the end marker
    let mut r = Source::new(w);
    let (state, ty, _) = State::read(&mut r).unwrap();
    let mut dest: Vec<u32> = Vec::new();
    let err = read_scalar_array(state.unwrap(), ty, &mut dest, &mut r).unwrap_err();
    assert_eq!(err, Error::IoFailure);
}

#[test]
fn empty_array_round_trip() {
    let arr: Vec<i8> = Vec::new();
    let mut w: Vec<u8> = Vec::new();
    write_scalar_array(2, &arr, &mut w).unwrap();
    let mut dest: Vec<i8> = vec![5, 6];
    read_back(&w, &mut dest);
    // An empty segment leaves the destination untouched.
    assert_eq!(dest, vec![5, 6]);
}

#[test]
fn multi_property_stream_in_order() {
    // Two properties and a terminator, read back in write order.
    let mut w: Vec<u8> = Vec::new();
    write_scalar_array(1, &vec![7u8, 8], &mut w).unwrap();
    write_vector_array(2, &vec![FixedVector::<u16, 2>::new(vec![3, 4]).unwrap()], &mut w)
        .unwrap();
    State::new().end_type_formats(&mut w).unwrap();

    let mut r = Source::new(w);
    let (state, ty, prop) = State::read(&mut r).unwrap();
    assert_eq!(prop, 1);
    let mut bytes_dest: Vec<u8> = Vec::new();
    read_scalar_array(state.unwrap(), ty, &mut bytes_dest, &mut r).unwrap();
    assert_eq!(bytes_dest, vec![7, 8]);

    let (state, ty, prop) = State::read(&mut r).unwrap();
    assert_eq!(prop, 2);
    let mut vec_dest: Vec<FixedVector<u16, 2>> = Vec::new();
    read_vector_array(state.unwrap(), ty, &mut vec_dest, &mut r).unwrap();
    assert_eq!(vec_dest.len(), 1);
    assert_eq!(vec_dest[0].clone().into_vec(), vec![3, 4]);

    let (state, ty, _) = State::read(&mut r).unwrap();
    assert!(state.is_none());
    assert_eq!(ty, 0);
    assert_eq!(r.remaining(), 0);
}

#[test]
fn vector_growth_fills_with_zero_vectors() {
    // One 2-component u16 vector at offset 2 into an empty destination.
    let (code, _) = Type::U16.vector(2).unwrap();
    let mut payload: Vec<u8> = Vec::new();
    payload.extend_from_slice(&1u16.to_le_bytes());
    payload.extend_from_slice(&2u16.to_le_bytes());
    let w = manual_block(code, 0, 4, 2, &payload);
    let mut r = Source::new(w);
    let (state, ty, _) = State::read(&mut r).unwrap();
    let mut dest: Vec<FixedVector<u16, 2>> = Vec::new();
    read_vector_array(state.unwrap(), ty, &mut dest, &mut r).unwrap();
    assert_eq!(dest.len(), 3);
    assert_eq!(dest[0].clone().into_vec(), vec![0, 0]);
    assert_eq!(dest[1].clone().into_vec(), vec![0, 0]);
    assert_eq!(dest[2].clone().into_vec(), vec![1, 2]);
}

#[test]
fn fixed_containers_check_dimensions() {
    assert!(FixedVector::<u8, 3>::new(vec![1, 2]).is_none());
    assert!(FixedVector::<u8, 3>::new(vec![1, 2, 3]).is_some());
    assert!(FixedMatrix::<u8, 2, 2>::new(vec![1, 2, 3]).is_none());
    assert!(FixedMatrix::<u8, 2, 2>::new(vec![1, 2, 3, 4]).is_some());
}

#[test]
fn custom_formats_pass_through_opaque() {
    // A type format in the custom range is surfaced as-is by the header
    // read; only a shaped read rejects it.
    let w = manual_block(64001, 3, 2, 0, &[1, 2]);
    let mut r = Source::new(w);
    let (state, ty, prop) = State::read(&mut r).unwrap();
    assert_eq!(ty, 64001);
    assert_eq!(prop, 3);
    let mut dest: Vec<u8> = Vec::new();
    let err = read_scalar_array(state.unwrap(), ty, &mut dest, &mut r).unwrap_err();
    assert_eq!(err, Error::ShapeMismatch);
}

#[test]
fn vector_property_shape_mismatch() {
    // A three-component vector block read as a two-component vector fails.
    let v = FixedVector::<u32, 3>::new(vec![1, 2, 3]).unwrap();
    let mut w: Vec<u8> = Vec::new();
    write_vector_property(&v, 0, &mut w).unwrap();
    let mut r = Source::new(w);
    let (state, ty, _) = State::read(&mut r).unwrap();
    let mut dest = FixedVector::<u32, 2>::new(vec![0, 0]).unwrap();
    let err = read_vector_property(&mut dest, state.unwrap(), ty, &mut r).unwrap_err();
    assert_eq!(err, Error::ShapeMismatch);
}
