use binpool::Error;
use binpool::Scalar;
use binpool::Source;
use binpool::State;

#[test]
fn writes_are_little_endian() {
    let mut w: Vec<u8> = Vec::new();
    let state = State::new().write_type_format(0x1234, &mut w).unwrap();
    let state = state.write_property_id(7, &mut w).unwrap();
    let state = state.write_bytes(2, &mut w).unwrap();
    let state = state.write_offset_instance_id(0x0102030405060708, &mut w).unwrap();
    let state = state.write_data(&[0xAA, 0xBB], &mut w).unwrap();
    state.end_data().end_bytes(&mut w).unwrap();
    State::new().end_type_formats(&mut w).unwrap();
    let mut expected: Vec<u8> = vec![0x34, 0x12, 0x07, 0x00];
    expected.extend_from_slice(&2u64.to_le_bytes());
    expected.extend_from_slice(&0x0102030405060708u64.to_le_bytes());
    expected.extend_from_slice(&[0xAA, 0xBB]);
    expected.extend_from_slice(&0u64.to_le_bytes());
    expected.extend_from_slice(&[0x00, 0x00]);
    assert_eq!(w, expected);
}

#[test]
fn empty_stream_reports_end() {
    // A stream holding only the u16 terminator: no property is consumed.
    let mut r = Source::new(vec![0, 0]);
    let (state, ty, prop) = State::read(&mut r).unwrap();
    assert!(state.is_none());
    assert_eq!(ty, 0);
    assert_eq!(prop, 0);
    assert_eq!(r.remaining(), 0);
}

#[test]
fn read_reports_block_header() {
    let mut r = Source::new(vec![0x34, 0x12, 0x07, 0x00]);
    let (state, ty, prop) = State::read(&mut r).unwrap();
    assert!(state.is_some());
    assert_eq!(ty, 0x1234);
    assert_eq!(prop, 7);
    assert_eq!(r.remaining(), 0);
}

#[test]
fn truncated_header_is_io_failure() {
    let mut r = Source::new(vec![0x34]);
    assert_eq!(State::read(&mut r).unwrap_err(), Error::IoFailure);
    // Nonzero type format but the property id is missing.
    let mut r = Source::new(vec![0x34, 0x12, 0x07]);
    assert_eq!(State::read(&mut r).unwrap_err(), Error::IoFailure);
}

#[test]
fn has_end_bytes_accepts_only_zero() {
    let mut w: Vec<u8> = Vec::new();
    let state = State::new().write_type_format(1, &mut w).unwrap();
    let state = state.write_property_id(0, &mut w).unwrap();
    state.end_bytes(&mut w).unwrap();

    let mut r = Source::new(w);
    let (state, _, _) = State::read(&mut r).unwrap();
    assert!(state.unwrap().has_end_bytes(&mut r).is_ok());

    let mut bad: Vec<u8> = vec![1, 0, 0, 0];
    bad.extend_from_slice(&5u64.to_le_bytes());
    let mut r = Source::new(bad);
    let (state, _, _) = State::read(&mut r).unwrap();
    assert_eq!(state.unwrap().has_end_bytes(&mut r).unwrap_err(), Error::MalformedFraming);
}

#[test]
fn field_reads_consume_in_wire_order() {
    let mut w: Vec<u8> = Vec::new();
    let state = State::new().write_type_format(6401, &mut w).unwrap();
    let state = state.write_property_id(9, &mut w).unwrap();
    let state = state.write_bytes(2, &mut w).unwrap();
    let state = state.write_offset_instance_id(4, &mut w).unwrap();
    let state = state.write_data(&[0xCD, 0xAB], &mut w).unwrap();
    state.end_data().end_bytes(&mut w).unwrap();

    let mut r = Source::new(w);
    let mut ty: u16 = 0;
    let mut prop: u16 = 0;
    let mut bytes: u64 = 0;
    let mut offset: u64 = 0;
    let state = State::new().read_type_format(&mut ty, &mut r).unwrap();
    let state = state.read_property_id(&mut prop, &mut r).unwrap();
    let state = state.read_bytes(&mut bytes, &mut r).unwrap();
    let state = state.read_offset_instance_id(&mut offset, &mut r).unwrap();
    assert_eq!((ty, prop, bytes, offset), (6401, 9, 2, 4));
    let mut value: u16 = 0;
    value.read(&mut r).unwrap();
    assert_eq!(value, 0xABCD);
    assert!(state.end_data().has_end_bytes(&mut r).is_ok());
    assert_eq!(r.remaining(), 0);
}
