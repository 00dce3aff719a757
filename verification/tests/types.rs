use binpool::Type;

const KINDS: [Type; 10] = [
    Type::U8,
    Type::U16,
    Type::U32,
    Type::U64,
    Type::I8,
    Type::I16,
    Type::I32,
    Type::I64,
    Type::F32,
    Type::F64,
];

#[test]
fn type_ids_are_unique_and_ordered() {
    for (i, k) in KINDS.iter().enumerate() {
        assert_eq!(k.type_id(), i as u16);
    }
}

#[test]
fn type_sizes_match_widths() {
    assert_eq!(Type::U8.type_size(), 1);
    assert_eq!(Type::U16.type_size(), 2);
    assert_eq!(Type::U32.type_size(), 4);
    assert_eq!(Type::U64.type_size(), 8);
    assert_eq!(Type::I8.type_size(), 1);
    assert_eq!(Type::I16.type_size(), 2);
    assert_eq!(Type::I32.type_size(), 4);
    assert_eq!(Type::I64.type_size(), 8);
    assert_eq!(Type::F32.type_size(), 4);
    assert_eq!(Type::F64.type_size(), 8);
}

#[test]
fn scalar_codes() {
    assert_eq!(Type::U8.scalar(), (1, 1));
    assert_eq!(Type::U16.scalar(), (6401, 2));
    assert_eq!(Type::F32.scalar(), (1 + 8 * 6400, 4));
    assert_eq!(Type::F64.scalar(), (1 + 9 * 6400, 8));
}

#[test]
fn vector_codes_and_bounds() {
    // A vector is the one-row case: code = scalar code + (dim - 1).
    assert_eq!(Type::F32.vector(3), Some((1 + 8 * 6400 + 2, 12)));
    assert_eq!(Type::U8.vector(1), Some((1, 1)));
    assert_eq!(Type::U8.vector(80), Some((80, 80)));
    for k in KINDS.iter() {
        assert_eq!(k.vector(0), None);
        assert_eq!(k.vector(81), None);
    }
}

#[test]
fn matrix_codes_and_bounds() {
    // rows-then-cols: code = 1 + kind * 6400 + (rows - 1) * 80 + (cols - 1).
    assert_eq!(Type::U16.matrix(3, 2), Some((1 + 6400 + 2 * 80 + 1, 12)));
    assert_eq!(Type::F64.matrix(80, 80), Some((1 + 9 * 6400 + 79 * 80 + 79, 8 * 6400)));
    assert_eq!(Type::F64.matrix(80, 80).unwrap().0, 64000);
    for k in KINDS.iter() {
        assert_eq!(k.matrix(0, 1), None);
        assert_eq!(k.matrix(1, 0), None);
        assert_eq!(k.matrix(81, 1), None);
        assert_eq!(k.matrix(1, 81), None);
    }
}

#[test]
fn info_recovers_every_encoded_shape() {
    for k in KINDS.iter() {
        let (code, _) = k.scalar();
        assert_eq!(Type::info(code), Some((*k, 1, 1)));
        for dim in [1u8, 2, 3, 4, 79, 80] {
            let (code, _) = k.vector(dim).unwrap();
            assert_eq!(Type::info(code), Some((*k, 1, dim)));
        }
        for (rows, cols) in [(1u8, 1u8), (2, 2), (3, 4), (80, 1), (80, 80)] {
            let (code, _) = k.matrix(rows, cols).unwrap();
            assert_eq!(Type::info(code), Some((*k, rows, cols)));
        }
    }
}

#[test]
fn info_rejects_terminator_and_custom_range() {
    assert_eq!(Type::info(0), None);
    assert_eq!(Type::info(64001), None);
    assert_eq!(Type::info(65535), None);
    // The last built-in code is still decodable.
    assert_eq!(Type::info(64000), Some((Type::F64, 80, 80)));
}

#[test]
fn custom_format_range() {
    assert_eq!(Type::offset_custom_format(), 64001);
    assert_eq!(Type::custom_formats(), 1535);
    assert_eq!(64001u32 + 1535 - 1, 65535);
}
